//! The wire format as mathematics: what a byte string decodes to, and
//! what a term encodes to.
use vstd::prelude::*;
use vstd::utf8::{decode_utf8, encode_utf8, valid_utf8};
use crate::bignum::{digits_normal, magnitude};
use crate::bytes::{u16_at, u16_be, u32_at, u32_be, u64_at, u64_be};
use crate::tag::{tag_of, ErlTermTag};
use crate::term::{BigNum, PidTerm, Term};

verus! {

broadcast use vstd::seq::axiom_seq_index_decreases, vstd::seq::axiom_seq_subrange_decreases;

/// Why a decode failed. Every failure ends the decode.
#[derive(Debug, Clone, Copy, PartialEq, Eq, Structural)]
pub enum DecodeError {
    /// The input ended inside a term.
    Eof,
    /// A byte where a tag belongs is not one of the format's tags.
    UnknownTag(u8),
    /// Text that is not well-formed UTF-8.
    BadText,
    /// Legacy float text that the float reader rejected.
    BadFloat,
    /// A known tag where the enclosing term allows other tags only.
    UnexpectedTag(u8),
}

/// The encoder's choices where the format allows several encodings.
#[derive(Debug, Clone, Copy, PartialEq, Eq, Structural)]
pub struct EncodeOptions {
    /// Use the UTF-8 atom tags rather than the legacy ones.
    pub utf8_atoms: bool,
    /// Use the 8-bit length atom tags for atoms of at most 255 bytes.
    pub small_atoms: bool,
    /// Write the true byte size of a `NewFun` rather than zero.
    pub fair_new_fun: bool,
}

/// What a legacy float text means: `None` for text that is not a float,
/// else the bits of the double.
pub type FloatText = spec_fn(Seq<char>) -> Option<u64>;

/// The input holds `n` bytes from `p` on.
pub open spec fn avail(d: Seq<u8>, p: int, n: nat) -> bool {
    0 <= p && p + n <= d.len()
}

/// How many bytes are left from `p` on.
pub open spec fn rest(d: Seq<u8>, p: int) -> nat {
    if p <= d.len() {
        (d.len() - p) as nat
    } else {
        0
    }
}

pub open spec fn bytes_at(d: Seq<u8>, p: int, n: nat) -> Seq<u8> {
    d.subrange(p, p + n)
}

/// `n` bytes of UTF-8 text at `p`.
pub open spec fn parse_text(d: Seq<u8>, p: int, n: nat) -> Result<Seq<char>, DecodeError> {
    if !avail(d, p, n) {
        Err(DecodeError::Eof)
    } else if valid_utf8(bytes_at(d, p, n)) {
        Ok(decode_utf8(bytes_at(d, p, n)))
    } else {
        Err(DecodeError::BadText)
    }
}

/// An atom's body at `p`: an 8-bit (small) or 16-bit length, then text.
/// Yields the text and the bytes consumed.
pub open spec fn parse_atom_body(d: Seq<u8>, p: int, small: bool) -> Result<
    (Seq<char>, nat),
    DecodeError,
> {
    let w: nat = if small {
        1
    } else {
        2
    };
    if !avail(d, p, w) {
        Err(DecodeError::Eof)
    } else {
        let n: nat = if small {
            d[p as int] as nat
        } else {
            u16_at(d, p as int) as nat
        };
        match parse_text(d, p + w, n) {
            Ok(s) => Ok((s, w + n)),
            Err(e) => Err(e),
        }
    }
}

/// The tag at `p`, failing on the end of input and on unknown bytes.
pub open spec fn parse_tag(d: Seq<u8>, p: int) -> Result<ErlTermTag, DecodeError> {
    if !avail(d, p, 1) {
        Err(DecodeError::Eof)
    } else {
        match tag_of(d[p as int]) {
            Some(t) => Ok(t),
            None => Err(DecodeError::UnknownTag(d[p as int])),
        }
    }
}

/// An atom under any of its four tags.
pub open spec fn parse_any_atom(d: Seq<u8>, p: int) -> Result<(Seq<char>, nat), DecodeError> {
    match parse_tag(d, p) {
        Ok(ErlTermTag::ATOM_EXT) | Ok(ErlTermTag::ATOM_UTF8_EXT) => match parse_atom_body(
            d,
            p + 1,
            false,
        ) {
            Ok((s, k)) => Ok((s, k + 1)),
            Err(e) => Err(e),
        },
        Ok(ErlTermTag::SMALL_ATOM_EXT) | Ok(ErlTermTag::SMALL_ATOM_UTF8_EXT) => match parse_atom_body(
            d,
            p + 1,
            true,
        ) {
            Ok((s, k)) => Ok((s, k + 1)),
            Err(e) => Err(e),
        },
        Ok(_) => Err(DecodeError::UnexpectedTag(d[p as int])),
        Err(e) => Err(e),
    }
}

/// A pid's body: node atom, id, serial, creation.
pub open spec fn parse_pid_body(d: Seq<u8>, p: int) -> Result<(PidTerm, nat), DecodeError> {
    match parse_any_atom(d, p) {
        Ok((node, k)) => if !avail(d, p + k, 9) {
            Err(DecodeError::Eof)
        } else {
            let q = (p + k) as int;
            Ok(
                (
                    PidTerm {
                        node,
                        id: u32_at(d, q),
                        serial: u32_at(d, q + 4),
                        creation: d[q + 8],
                    },
                    k + 9,
                ),
            )
        },
        Err(e) => Err(e),
    }
}

/// A field that must be a pid term.
pub open spec fn parse_pid_field(d: Seq<u8>, p: int) -> Result<(PidTerm, nat), DecodeError> {
    match parse_tag(d, p) {
        Ok(ErlTermTag::PID_EXT) => match parse_pid_body(d, p + 1) {
            Ok((pid, k)) => Ok((pid, k + 1)),
            Err(e) => Err(e),
        },
        Ok(_) => Err(DecodeError::UnexpectedTag(d[p as int])),
        Err(e) => Err(e),
    }
}

/// A field that must be a small or a full-width integer term, read as 32
/// bits.
pub open spec fn parse_int_field(d: Seq<u8>, p: int) -> Result<(u32, nat), DecodeError> {
    match parse_tag(d, p) {
        Ok(ErlTermTag::SMALL_INTEGER_EXT) => if !avail(d, p + 1, 1) {
            Err(DecodeError::Eof)
        } else {
            Ok((d[p + 1] as u32, 2))
        },
        Ok(ErlTermTag::INTEGER_EXT) => if !avail(d, p + 1, 4) {
            Err(DecodeError::Eof)
        } else {
            Ok((u32_at(d, p + 1), 5))
        },
        Ok(_) => Err(DecodeError::UnexpectedTag(d[p as int])),
        Err(e) => Err(e),
    }
}

/// A field that must be a small integer term.
pub open spec fn parse_small_int_field(d: Seq<u8>, p: int) -> Result<(u8, nat), DecodeError> {
    match parse_tag(d, p) {
        Ok(ErlTermTag::SMALL_INTEGER_EXT) => if !avail(d, p + 1, 1) {
            Err(DecodeError::Eof)
        } else {
            Ok((d[p + 1], 2))
        },
        Ok(_) => Err(DecodeError::UnexpectedTag(d[p as int])),
        Err(e) => Err(e),
    }
}

/// A big integer's sign byte and `n` magnitude bytes.
pub open spec fn parse_big(d: Seq<u8>, p: int, n: nat) -> Result<(Term, nat), DecodeError> {
    if !avail(d, p, 1 + n) {
        Err(DecodeError::Eof)
    } else {
        let v = BigNum::wire_view(d[p as int], bytes_at(d, p + 1, n));
        Ok((Term::BigNum(v.0, v.1), 1 + n))
    }
}

/// The term at `p`: its tag, then its body. Yields the term and the bytes
/// consumed.
pub open spec fn parse_term(d: Seq<u8>, p: int, fl: FloatText) -> Result<(Term, nat), DecodeError>
    decreases rest(d, p), 0nat,
{
    match parse_tag(d, p) {
        Ok(tag) => match parse_body(d, p + 1, tag, fl) {
            Ok((t, k)) => Ok((t, k + 1)),
            Err(e) => Err(e),
        },
        Err(e) => Err(e),
    }
}

/// `n` terms one after another.
pub open spec fn parse_terms(d: Seq<u8>, p: int, n: nat, fl: FloatText) -> Result<
    (Seq<Term>, nat),
    DecodeError,
>
    decreases rest(d, p), n + 1,
{
    if n == 0 {
        Ok((Seq::empty(), 0))
    } else {
        match parse_term(d, p, fl) {
            Ok((t, k)) => match parse_terms(d, p + k, (n - 1) as nat, fl) {
                Ok((ts, k2)) => Ok((seq![t] + ts, k + k2)),
                Err(e) => Err(e),
            },
            Err(e) => Err(e),
        }
    }
}

/// `n` key-value pairs, each key before its value.
pub open spec fn parse_pairs(d: Seq<u8>, p: int, n: nat, fl: FloatText) -> Result<
    (Seq<(Term, Term)>, nat),
    DecodeError,
>
    decreases rest(d, p), 2 * n + 1,
{
    if n == 0 {
        Ok((Seq::empty(), 0))
    } else {
        match parse_term(d, p, fl) {
            Ok((key, k1)) => match parse_term(d, p + k1, fl) {
                Ok((val, k2)) => match parse_pairs(d, p + k1 + k2, (n - 1) as nat, fl) {
                    Ok((ps, k3)) => Ok((seq![(key, val)] + ps, k1 + k2 + k3)),
                    Err(e) => Err(e),
                },
                Err(e) => Err(e),
            },
            Err(e) => Err(e),
        }
    }
}

/// The body of a term tagged `tag`, from `q` on: the term and the bytes consumed.
pub open spec fn parse_body(d: Seq<u8>, q: int, tag: ErlTermTag, fl: FloatText) -> Result<
    (Term, nat),
    DecodeError,
>
    decreases rest(d, q), 0nat,
{
    match tag {
        ErlTermTag::SMALL_INTEGER_EXT => if !avail(d, q, 1) {
            Err(DecodeError::Eof)
        } else {
            Ok((Term::SmallInteger(d[q as int]), 1))
        },
        ErlTermTag::INTEGER_EXT => if !avail(d, q, 4) {
            Err(DecodeError::Eof)
        } else {
            Ok((Term::Integer(u32_at(d, q as int) as i32), 4))
        },
        ErlTermTag::FLOAT_EXT => match parse_text(d, q, 31) {
            Ok(text) => match fl(text) {
                Some(bits) => Ok((Term::Float(bits), 31)),
                None => Err(DecodeError::BadFloat),
            },
            Err(e) => Err(e),
        },
        ErlTermTag::NEW_FLOAT_EXT => if !avail(d, q, 8) {
            Err(DecodeError::Eof)
        } else {
            Ok((Term::Float(u64_at(d, q as int)), 8))
        },
        ErlTermTag::ATOM_EXT | ErlTermTag::ATOM_UTF8_EXT => match parse_atom_body(d, q, false) {
            Ok((s, k)) => Ok((Term::Atom(s), k)),
            Err(e) => Err(e),
        },
        ErlTermTag::SMALL_ATOM_EXT | ErlTermTag::SMALL_ATOM_UTF8_EXT => match parse_atom_body(
            d,
            q,
            true,
        ) {
            Ok((s, k)) => Ok((Term::Atom(s), k)),
            Err(e) => Err(e),
        },
        ErlTermTag::REFERENCE_EXT => match parse_any_atom(d, q) {
            Ok((node, k)) => if !avail(d, q + k, 5) {
                Err(DecodeError::Eof)
            } else {
                Ok(
                    (
                        Term::Reference {
                            node,
                            id: bytes_at(d, q + k, 4),
                            creation: d[q + k + 4],
                        },
                        k + 5,
                    ),
                )
            },
            Err(e) => Err(e),
        },
        ErlTermTag::NEW_REFERENCE_EXT => if !avail(d, q, 2) {
            Err(DecodeError::Eof)
        } else {
            let n = u16_at(d, q as int) as nat;
            match parse_any_atom(d, q + 2) {
                Ok((node, k)) => if !avail(d, q + 2 + k, 1 + 4 * n) {
                    Err(DecodeError::Eof)
                } else {
                    Ok(
                        (
                            Term::Reference {
                                node,
                                id: bytes_at(d, q + 2 + k + 1, 4 * n),
                                creation: d[q + 2 + k],
                            },
                            2 + k + 1 + 4 * n,
                        ),
                    )
                },
                Err(e) => Err(e),
            }
        },
        ErlTermTag::PORT_EXT => match parse_any_atom(d, q) {
            Ok((node, k)) => if !avail(d, q + k, 5) {
                Err(DecodeError::Eof)
            } else {
                Ok(
                    (
                        Term::Port { node, id: u32_at(d, q + k), creation: d[q + k + 4] },
                        k + 5,
                    ),
                )
            },
            Err(e) => Err(e),
        },
        ErlTermTag::PID_EXT => match parse_pid_body(d, q) {
            Ok((pid, k)) => Ok((Term::Pid(pid), k)),
            Err(e) => Err(e),
        },
        ErlTermTag::SMALL_TUPLE_EXT => if !avail(d, q, 1) {
            Err(DecodeError::Eof)
        } else {
            match parse_terms(d, q + 1, d[q as int] as nat, fl) {
                Ok((ts, k)) => Ok((Term::Tuple(ts), 1 + k)),
                Err(e) => Err(e),
            }
        },
        ErlTermTag::LARGE_TUPLE_EXT => if !avail(d, q, 4) {
            Err(DecodeError::Eof)
        } else {
            match parse_terms(d, q + 4, u32_at(d, q as int) as nat, fl) {
                Ok((ts, k)) => Ok((Term::Tuple(ts), 4 + k)),
                Err(e) => Err(e),
            }
        },
        ErlTermTag::MAP_EXT => if !avail(d, q, 4) {
            Err(DecodeError::Eof)
        } else {
            match parse_pairs(d, q + 4, u32_at(d, q as int) as nat, fl) {
                Ok((ps, k)) => Ok((Term::MapPairs(ps), 4 + k)),
                Err(e) => Err(e),
            }
        },
        ErlTermTag::NIL_EXT => Ok((Term::Nil, 0)),
        ErlTermTag::STRING_EXT => if !avail(d, q, 2) || !avail(d, q + 2, u16_at(d, q as int) as nat) {
            Err(DecodeError::Eof)
        } else {
            let n = u16_at(d, q as int) as nat;
            Ok((Term::String(bytes_at(d, q + 2, n)), 2 + n))
        },
        ErlTermTag::LIST_EXT => if !avail(d, q, 4) {
            Err(DecodeError::Eof)
        } else {
            match parse_terms(d, q + 4, u32_at(d, q as int) as nat + 1, fl) {
                Ok((ts, k)) => Ok((Term::List(ts), 4 + k)),
                Err(e) => Err(e),
            }
        },
        ErlTermTag::BINARY_EXT => if !avail(d, q, 4) || !avail(d, q + 4, u32_at(d, q as int) as nat) {
            Err(DecodeError::Eof)
        } else {
            let n = u32_at(d, q as int) as nat;
            Ok((Term::Binary(bytes_at(d, q + 4, n)), 4 + n))
        },
        ErlTermTag::SMALL_BIG_EXT => if !avail(d, q, 1) {
            Err(DecodeError::Eof)
        } else {
            match parse_big(d, q + 1, d[q as int] as nat) {
                Ok((t, k)) => Ok((t, 1 + k)),
                Err(e) => Err(e),
            }
        },
        ErlTermTag::LARGE_BIG_EXT => if !avail(d, q, 4) {
            Err(DecodeError::Eof)
        } else {
            match parse_big(d, q + 4, u32_at(d, q as int) as nat) {
                Ok((t, k)) => Ok((t, 4 + k)),
                Err(e) => Err(e),
            }
        },
        ErlTermTag::FUN_EXT => if !avail(d, q, 4) {
            Err(DecodeError::Eof)
        } else {
            let nf = u32_at(d, q as int) as nat;
            match parse_pid_field(d, q + 4) {
                Ok((pid, k1)) => match parse_any_atom(d, q + 4 + k1) {
                    Ok((module, k2)) => match parse_int_field(d, q + 4 + k1 + k2) {
                        Ok((index, k3)) => match parse_int_field(d, q + 4 + k1 + k2 + k3) {
                            Ok((uniq, k4)) => match parse_terms(
                                d,
                                q + 4 + k1 + k2 + k3 + k4,
                                nf,
                                fl,
                            ) {
                                Ok((free_vars, k5)) => Ok(
                                    (
                                        Term::Fun { pid, module, index, uniq, free_vars },
                                        4 + k1 + k2 + k3 + k4 + k5,
                                    ),
                                ),
                                Err(e) => Err(e),
                            },
                            Err(e) => Err(e),
                        },
                        Err(e) => Err(e),
                    },
                    Err(e) => Err(e),
                },
                Err(e) => Err(e),
            }
        },
        ErlTermTag::NEW_FUN_EXT => if !avail(d, q, 29) {
            Err(DecodeError::Eof)
        } else {
            let arity = d[q + 4];
            let uniq = bytes_at(d, q + 5, 16);
            let index = u32_at(d, q + 21);
            let nf = u32_at(d, q + 25) as nat;
            match parse_any_atom(d, q + 29) {
                Ok((module, k1)) => match parse_int_field(d, q + 29 + k1) {
                    Ok((old_index, k2)) => match parse_int_field(d, q + 29 + k1 + k2) {
                        Ok((old_uniq, k3)) => match parse_pid_field(d, q + 29 + k1 + k2 + k3) {
                            Ok((pid, k4)) => match parse_terms(
                                d,
                                q + 29 + k1 + k2 + k3 + k4,
                                nf,
                                fl,
                            ) {
                                Ok((free_vars, k5)) => Ok(
                                    (
                                        Term::NewFun {
                                            arity,
                                            uniq,
                                            index,
                                            module,
                                            old_index,
                                            old_uniq,
                                            pid,
                                            free_vars,
                                        },
                                        29 + k1 + k2 + k3 + k4 + k5,
                                    ),
                                ),
                                Err(e) => Err(e),
                            },
                            Err(e) => Err(e),
                        },
                        Err(e) => Err(e),
                    },
                    Err(e) => Err(e),
                },
                Err(e) => Err(e),
            }
        },
        ErlTermTag::EXPORT_EXT => match parse_any_atom(d, q) {
            Ok((module, k1)) => match parse_any_atom(d, q + k1) {
                Ok((function, k2)) => match parse_small_int_field(d, q + k1 + k2) {
                    Ok((arity, k3)) => Ok((Term::Export { module, function, arity }, k1 + k2 + k3)),
                    Err(e) => Err(e),
                },
                Err(e) => Err(e),
            },
            Err(e) => Err(e),
        },
        ErlTermTag::BIT_BINARY_EXT => if !avail(d, q, 4) || !avail(
            d,
            q + 4,
            1 + u32_at(d, q as int) as nat,
        ) {
            Err(DecodeError::Eof)
        } else {
            let n = u32_at(d, q as int) as nat;
            Ok((Term::BitBinary { bits: d[q + 4], data: bytes_at(d, q + 5, n) }, 5 + n))
        },
    }
}

/// An atom: the small tag where the options allow it and the text fits in
/// 255 bytes, else the 16-bit length tag; UTF-8 or legacy tags by option.
pub open spec fn enc_atom(a: Seq<char>, o: EncodeOptions) -> Seq<u8> {
    let b = encode_utf8(a);
    if b.len() <= 255 && o.small_atoms {
        seq![if o.utf8_atoms { 119u8 } else { 115u8 }, b.len() as u8] + b
    } else {
        seq![if o.utf8_atoms { 118u8 } else { 100u8 }] + u16_be(b.len() as u16) + b
    }
}

/// A pid's body: node atom, id, serial, creation.
pub open spec fn enc_pid_body(p: PidTerm, o: EncodeOptions) -> Seq<u8> {
    enc_atom(p.node, o) + u32_be(p.id) + u32_be(p.serial) + seq![p.creation]
}

/// A 32-bit field as a small integer term where it fits, else as a
/// full-width integer term.
pub open spec fn enc_int_field(v: u32) -> Seq<u8> {
    if v <= 255 {
        seq![97u8, v as u8]
    } else {
        seq![98u8] + u32_be(v)
    }
}

/// A big integer: sign byte 0 for non-negative, 1 for negative; the small
/// form for a magnitude under 255 bytes, else the large form.
pub open spec fn enc_big(negative: bool, digits: Seq<u32>) -> Seq<u8> {
    let m = magnitude(digits);
    let sign: u8 = if negative {
        1
    } else {
        0
    };
    if m.len() < 255 {
        seq![110u8, m.len() as u8, sign] + m
    } else {
        seq![111u8] + u32_be(m.len() as u32) + seq![sign] + m
    }
}

/// A `NewFun` body up to its free variables.
pub open spec fn new_fun_body(
    arity: u8,
    uniq: Seq<u8>,
    index: u32,
    num_free: nat,
    module: Seq<char>,
    old_index: u32,
    old_uniq: u32,
    pid: PidTerm,
    o: EncodeOptions,
) -> Seq<u8> {
    seq![arity] + uniq + u32_be(index) + u32_be(num_free as u32) + enc_atom(module, o)
        + enc_int_field(old_index) + enc_int_field(old_uniq) + seq![103u8] + enc_pid_body(pid, o)
}

/// The encoding of a term under the given options.
pub open spec fn enc_term(t: Term, o: EncodeOptions) -> Seq<u8>
    decreases t,
{
    match t {
        Term::SmallInteger(n) => seq![97u8, n],
        Term::Integer(i) => seq![98u8] + u32_be(i as u32),
        Term::Float(bits) => seq![70u8] + u64_be(bits),
        Term::Atom(a) => enc_atom(a, o),
        Term::Reference { node, id, creation } => seq![114u8] + u16_be((id.len() / 4) as u16)
            + enc_atom(node, o) + seq![creation] + id,
        Term::Port { node, id, creation } => seq![102u8] + enc_atom(node, o) + u32_be(id) + seq![
            creation,
        ],
        Term::Pid(p) => seq![103u8] + enc_pid_body(p, o),
        Term::Tuple(ts) => if ts.len() <= 255 {
            seq![104u8, ts.len() as u8] + enc_terms(ts, o)
        } else {
            seq![105u8] + u32_be(ts.len() as u32) + enc_terms(ts, o)
        },
        Term::MapPairs(ps) => seq![116u8] + u32_be(ps.len() as u32) + enc_pairs(ps, o),
        Term::Nil => seq![106u8],
        Term::String(s) => seq![107u8] + u16_be(s.len() as u16) + s,
        Term::List(ts) => seq![108u8] + u32_be((ts.len() - 1) as u32) + enc_terms(ts, o),
        Term::Binary(b) => seq![109u8] + u32_be(b.len() as u32) + b,
        Term::BigNum(negative, digits) => enc_big(negative, digits),
        Term::Fun { pid, module, index, uniq, free_vars } => seq![117u8] + u32_be(
            free_vars.len() as u32,
        ) + seq![103u8] + enc_pid_body(pid, o) + enc_atom(module, o) + enc_int_field(index)
            + enc_int_field(uniq) + enc_terms(free_vars, o),
        Term::NewFun { arity, uniq, index, module, old_index, old_uniq, pid, free_vars } => {
            let body = new_fun_body(
                arity,
                uniq,
                index,
                free_vars.len(),
                module,
                old_index,
                old_uniq,
                pid,
                o,
            ) + enc_terms(free_vars, o);
            let size: u32 = if o.fair_new_fun {
                (4 + body.len()) as u32
            } else {
                0
            };
            seq![112u8] + u32_be(size) + body
        },
        Term::Export { module, function, arity } => seq![113u8] + enc_atom(module, o) + enc_atom(
            function,
            o,
        ) + seq![97u8, arity],
        Term::BitBinary { bits, data } => seq![77u8] + u32_be(data.len() as u32) + seq![bits]
            + data,
    }
}

/// Terms one after another.
pub open spec fn enc_terms(ts: Seq<Term>, o: EncodeOptions) -> Seq<u8>
    decreases ts,
{
    if ts.len() == 0 {
        Seq::empty()
    } else {
        enc_terms(ts.subrange(0, ts.len() - 1), o) + enc_term(ts[ts.len() - 1], o)
    }
}

/// Key-value pairs one after another, each key before its value.
pub open spec fn enc_pairs(ps: Seq<(Term, Term)>, o: EncodeOptions) -> Seq<u8>
    decreases ps,
{
    if ps.len() == 0 {
        Seq::empty()
    } else {
        enc_pairs(ps.subrange(0, ps.len() - 1), o) + enc_term(ps[ps.len() - 1].0, o) + enc_term(
            ps[ps.len() - 1].1,
            o,
        )
    }
}

/// The text fits the 16-bit length of an atom.
pub open spec fn atom_fits(a: Seq<char>) -> bool {
    encode_utf8(a).len() <= 0xFFFF
}

/// Every length and arity of the term fits its field on the wire (the
/// encoder does not check them), a list has its tail, a reference id is
/// whole 32-bit words, a `NewFun` uniq is 16 bytes, and big integers are
/// in normal form.
pub open spec fn encodable(t: Term, o: EncodeOptions) -> bool
    decreases t,
{
    match t {
        Term::Atom(a) => atom_fits(a),
        Term::Reference { node, id, .. } => atom_fits(node) && id.len() % 4 == 0 && id.len() / 4
            <= 0xFFFF,
        Term::Port { node, .. } => atom_fits(node),
        Term::Pid(p) => atom_fits(p.node),
        Term::Tuple(ts) => ts.len() <= 0xFFFF_FFFF && forall|i: int|
            0 <= i < ts.len() ==> encodable(#[trigger] ts[i], o),
        Term::MapPairs(ps) => ps.len() <= 0xFFFF_FFFF && forall|i: int|
            0 <= i < ps.len() ==> encodable(#[trigger] ps[i].0, o) && encodable(ps[i].1, o),
        Term::String(s) => s.len() <= 0xFFFF,
        Term::List(ts) => 1 <= ts.len() <= 0x1_0000_0000 && forall|i: int|
            0 <= i < ts.len() ==> encodable(#[trigger] ts[i], o),
        Term::Binary(b) => b.len() <= 0xFFFF_FFFF,
        Term::BigNum(negative, digits) => digits_normal(digits) && (digits.len() == 0
            ==> !negative) && magnitude(digits).len() <= 0xFFFF_FFFF,
        Term::Fun { pid, module, free_vars, .. } => atom_fits(pid.node) && atom_fits(module)
            && free_vars.len() <= 0xFFFF_FFFF && forall|i: int|
            0 <= i < free_vars.len() ==> encodable(#[trigger] free_vars[i], o),
        Term::NewFun { uniq, module, pid, free_vars, .. } => uniq.len() == 16 && atom_fits(module)
            && atom_fits(pid.node) && free_vars.len() <= 0xFFFF_FFFF && (forall|i: int|
            0 <= i < free_vars.len() ==> encodable(#[trigger] free_vars[i], o)) && (
        o.fair_new_fun ==> enc_term(t, o).len() <= 0xFFFF_FFFF),
        Term::Export { module, function, .. } => atom_fits(module) && atom_fits(function),
        Term::BitBinary { data, .. } => data.len() <= 0xFFFF_FFFF,
        _ => true,
    }
}

} // verus!
