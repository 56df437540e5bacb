//! What holds of the encoder and the decoder together.
use vstd::prelude::*;
use vstd::utf8::{encode_utf8, encode_utf8_decode_utf8, encode_utf8_valid_utf8};
use crate::bignum::{digits_normal, lemma_magnitude_packs_back, magnitude};
use crate::bytes::{
    lemma_u16_round_trip, lemma_u32_round_trip, lemma_u64_round_trip, u16_at, u16_be, u32_at,
    u32_be, u64_at, u64_be,
};
use crate::tag::tag_of;
use crate::term::{PidTerm, Term};
use crate::wire::{
    atom_fits, avail, bytes_at, enc_atom, enc_big, enc_int_field, enc_pairs, enc_pid_body, enc_term,
    enc_terms, encodable, new_fun_body, parse_any_atom, parse_int_field, parse_pairs,
    parse_pid_body, parse_pid_field, parse_term, parse_terms, parse_text, DecodeError,
    EncodeOptions, FloatText,
};

verus! {

broadcast use vstd::seq::axiom_seq_index_decreases, vstd::seq::axiom_seq_subrange_decreases;

/// `e` stands in `d` from `p` on.
pub open spec fn at(d: Seq<u8>, p: int, e: Seq<u8>) -> bool {
    0 <= p && p + e.len() <= d.len() && d.subrange(p, p + e.len()) == e
}

proof fn lemma_at_split(d: Seq<u8>, p: int, a: Seq<u8>, b: Seq<u8>)
    requires
        at(d, p, a + b),
    ensures
        at(d, p, a),
        at(d, p + a.len(), b),
{
    let s = d.subrange(p, p + (a + b).len());
    assert forall|i: int| 0 <= i < a.len() implies d.subrange(p, p + a.len())[i] == a[i] by {
        assert(s[i] == (a + b)[i]);
    }
    assert forall|i: int| 0 <= i < b.len() implies d.subrange(p + a.len(), p + a.len() + b.len())[i]
        == b[i] by {
        assert(s[a.len() + i] == (a + b)[a.len() + i]);
    }
    assert(d.subrange(p, p + a.len()) =~= a);
    assert(d.subrange(p + a.len(), p + a.len() + b.len()) =~= b);
}

proof fn lemma_at_byte(d: Seq<u8>, p: int, e: Seq<u8>, i: int)
    requires
        at(d, p, e),
        0 <= i < e.len(),
    ensures
        d[p + i] == e[i],
{
    assert(d.subrange(p, p + e.len())[i] == d[p + i]);
}

proof fn lemma_at_u16(d: Seq<u8>, p: int, v: u16)
    requires
        at(d, p, u16_be(v)),
    ensures
        u16_at(d, p) == v,
{
    lemma_at_byte(d, p, u16_be(v), 0);
    lemma_at_byte(d, p, u16_be(v), 1);
    lemma_u16_round_trip(v);
}

proof fn lemma_at_u32(d: Seq<u8>, p: int, v: u32)
    requires
        at(d, p, u32_be(v)),
    ensures
        u32_at(d, p) == v,
{
    lemma_at_byte(d, p, u32_be(v), 0);
    lemma_at_byte(d, p, u32_be(v), 1);
    lemma_at_byte(d, p, u32_be(v), 2);
    lemma_at_byte(d, p, u32_be(v), 3);
    lemma_u32_round_trip(v);
}

proof fn lemma_at_u64(d: Seq<u8>, p: int, v: u64)
    requires
        at(d, p, u64_be(v)),
    ensures
        u64_at(d, p) == v,
{
    assert(d.subrange(p, p + 8) =~= u64_be(v));
    lemma_u64_round_trip(v);
}

proof fn lemma_text(d: Seq<u8>, p: int, a: Seq<char>)
    requires
        at(d, p, encode_utf8(a)),
    ensures
        parse_text(d, p, encode_utf8(a).len()) == Ok::<Seq<char>, DecodeError>(a),
{
    encode_utf8_valid_utf8(a);
    encode_utf8_decode_utf8(a);
}

proof fn lemma_atom(d: Seq<u8>, p: int, a: Seq<char>, o: EncodeOptions)
    requires
        at(d, p, enc_atom(a, o)),
        atom_fits(a),
    ensures
        parse_any_atom(d, p) == Ok::<(Seq<char>, nat), DecodeError>((a, enc_atom(a, o).len())),
{
    let b = encode_utf8(a);
    if b.len() <= 255 && o.small_atoms {
        let tag: u8 = if o.utf8_atoms { 119 } else { 115 };
        lemma_at_split(d, p, seq![tag, b.len() as u8], b);
        lemma_at_byte(d, p, seq![tag, b.len() as u8], 0);
        lemma_at_byte(d, p, seq![tag, b.len() as u8], 1);
        lemma_text(d, p + 2, a);
    } else {
        let tag: u8 = if o.utf8_atoms { 118 } else { 100 };
        lemma_at_split(d, p, seq![tag] + u16_be(b.len() as u16), b);
        lemma_at_split(d, p, seq![tag], u16_be(b.len() as u16));
        lemma_at_byte(d, p, seq![tag], 0);
        lemma_at_u16(d, p + 1, b.len() as u16);
        lemma_text(d, p + 3, a);
    }
}

proof fn lemma_pid_body(d: Seq<u8>, p: int, pid: PidTerm, o: EncodeOptions)
    requires
        at(d, p, enc_pid_body(pid, o)),
        atom_fits(pid.node),
    ensures
        parse_pid_body(d, p) == Ok::<(PidTerm, nat), DecodeError>(
            (pid, enc_pid_body(pid, o).len()),
        ),
{
    let a = enc_atom(pid.node, o);
    lemma_at_split(d, p, a + u32_be(pid.id) + u32_be(pid.serial), seq![pid.creation]);
    lemma_at_split(d, p, a + u32_be(pid.id), u32_be(pid.serial));
    lemma_at_split(d, p, a, u32_be(pid.id));
    lemma_atom(d, p, pid.node, o);
    lemma_at_u32(d, p + a.len(), pid.id);
    lemma_at_u32(d, p + a.len() + 4, pid.serial);
    lemma_at_byte(d, p + a.len() + 8, seq![pid.creation], 0);
}

proof fn lemma_pid_field(d: Seq<u8>, p: int, pid: PidTerm, o: EncodeOptions)
    requires
        at(d, p, seq![103u8] + enc_pid_body(pid, o)),
        atom_fits(pid.node),
    ensures
        parse_pid_field(d, p) == Ok::<(PidTerm, nat), DecodeError>(
            (pid, 1 + enc_pid_body(pid, o).len()),
        ),
{
    lemma_at_split(d, p, seq![103u8], enc_pid_body(pid, o));
    lemma_at_byte(d, p, seq![103u8], 0);
    lemma_pid_body(d, p + 1, pid, o);
}

proof fn lemma_int_field(d: Seq<u8>, p: int, v: u32)
    requires
        at(d, p, enc_int_field(v)),
    ensures
        parse_int_field(d, p) == Ok::<(u32, nat), DecodeError>((v, enc_int_field(v).len())),
{
    if v <= 255 {
        lemma_at_byte(d, p, enc_int_field(v), 0);
        lemma_at_byte(d, p, enc_int_field(v), 1);
    } else {
        lemma_at_split(d, p, seq![98u8], u32_be(v));
        lemma_at_byte(d, p, seq![98u8], 0);
        lemma_at_u32(d, p + 1, v);
    }
}

proof fn lemma_enc_terms_head(ts: Seq<Term>, o: EncodeOptions)
    requires
        ts.len() > 0,
    ensures
        enc_terms(ts, o) == enc_term(ts[0], o) + enc_terms(ts.subrange(1, ts.len() as int), o),
    decreases ts.len(),
{
    let n = ts.len() as int;
    let init = ts.subrange(0, n - 1);
    let tail = ts.subrange(1, n);
    if n == 1 {
        assert(init =~= Seq::<Term>::empty());
        assert(tail =~= Seq::<Term>::empty());
        assert(enc_terms(ts, o) =~= enc_term(ts[0], o) + enc_terms(tail, o));
    } else {
        lemma_enc_terms_head(init, o);
        assert(tail.subrange(0, n - 2) =~= init.subrange(1, n - 1));
        assert(tail[n - 2] == ts[n - 1]);
        assert(enc_terms(ts, o) =~= enc_term(ts[0], o) + enc_terms(tail, o));
    }
}

proof fn lemma_enc_pairs_head(ps: Seq<(Term, Term)>, o: EncodeOptions)
    requires
        ps.len() > 0,
    ensures
        enc_pairs(ps, o) == enc_term(ps[0].0, o) + enc_term(ps[0].1, o) + enc_pairs(
            ps.subrange(1, ps.len() as int),
            o,
        ),
    decreases ps.len(),
{
    let n = ps.len() as int;
    let init = ps.subrange(0, n - 1);
    let tail = ps.subrange(1, n);
    if n == 1 {
        assert(init =~= Seq::<(Term, Term)>::empty());
        assert(tail =~= Seq::<(Term, Term)>::empty());
        assert(enc_pairs(ps, o) =~= enc_term(ps[0].0, o) + enc_term(ps[0].1, o) + enc_pairs(
            tail,
            o,
        ));
    } else {
        lemma_enc_pairs_head(init, o);
        assert(tail.subrange(0, n - 2) =~= init.subrange(1, n - 1));
        assert(tail[n - 2] == ps[n - 1]);
        assert(enc_pairs(ps, o) =~= enc_term(ps[0].0, o) + enc_term(ps[0].1, o) + enc_pairs(
            tail,
            o,
        ));
    }
}

/// Terms written one after another decode, in order, to themselves.
#[verifier::rlimit(100)]
pub proof fn lemma_decode_encoded_terms(
    ts: Seq<Term>,
    o: EncodeOptions,
    d: Seq<u8>,
    p: int,
    fl: FloatText,
)
    requires
        forall|i: int| 0 <= i < ts.len() ==> encodable(#[trigger] ts[i], o),
        at(d, p, enc_terms(ts, o)),
    ensures
        parse_terms(d, p, ts.len(), fl) == Ok::<(Seq<Term>, nat), DecodeError>(
            (ts, enc_terms(ts, o).len()),
        ),
    decreases ts,
{
    if ts.len() == 0 {
        assert(ts =~= Seq::<Term>::empty());
    } else {
        let tail = ts.subrange(1, ts.len() as int);
        lemma_enc_terms_head(ts, o);
        lemma_at_split(d, p, enc_term(ts[0], o), enc_terms(tail, o));
        lemma_decode_encoded(ts[0], o, d, p, fl);
        assert forall|i: int| 0 <= i < tail.len() implies encodable(#[trigger] tail[i], o) by {
            assert(tail[i] == ts[i + 1]);
        }
        let k = enc_term(ts[0], o).len();
        lemma_decode_encoded_terms(tail, o, d, p + k, fl);
        assert(seq![ts[0]] + tail =~= ts);
        assert(parse_term(d, p, fl) == Ok::<(Term, nat), DecodeError>((ts[0], k)));
        assert(parse_terms(d, p + k, (ts.len() - 1) as nat, fl) == Ok::<(Seq<Term>, nat), DecodeError>(
            (tail, enc_terms(tail, o).len()),
        ));
    }
}

/// Key-value pairs written one after another decode, in order, to
/// themselves.
#[verifier::rlimit(100)]
pub proof fn lemma_decode_encoded_pairs(
    ps: Seq<(Term, Term)>,
    o: EncodeOptions,
    d: Seq<u8>,
    p: int,
    fl: FloatText,
)
    requires
        forall|i: int| 0 <= i < ps.len() ==> encodable(#[trigger] ps[i].0, o) && encodable(ps[i].1, o),
        at(d, p, enc_pairs(ps, o)),
    ensures
        parse_pairs(d, p, ps.len(), fl) == Ok::<(Seq<(Term, Term)>, nat), DecodeError>(
            (ps, enc_pairs(ps, o).len()),
        ),
    decreases ps,
{
    if ps.len() == 0 {
        assert(ps =~= Seq::<(Term, Term)>::empty());
    } else {
        let tail = ps.subrange(1, ps.len() as int);
        let k = enc_term(ps[0].0, o);
        let v = enc_term(ps[0].1, o);
        lemma_enc_pairs_head(ps, o);
        lemma_at_split(d, p, k + v, enc_pairs(tail, o));
        lemma_at_split(d, p, k, v);
        assert(encodable(ps[0].0, o) && encodable(ps[0].1, o));
        lemma_decode_encoded(ps[0].0, o, d, p, fl);
        lemma_decode_encoded(ps[0].1, o, d, p + k.len(), fl);
        assert forall|i: int| 0 <= i < tail.len() implies encodable(#[trigger] tail[i].0, o)
            && encodable(tail[i].1, o) by {
            assert(tail[i] == ps[i + 1]);
        }
        lemma_decode_encoded_pairs(tail, o, d, p + k.len() + v.len(), fl);
        assert(seq![ps[0]] + tail =~= ps);
        assert(seq![(ps[0].0, ps[0].1)] + tail =~= ps);
    }
}

/// Round trip: an encodable term, encoded under any options, decodes to
/// itself and consumes exactly its encoding, whatever follows it and
/// whatever legacy float text means.
#[verifier::rlimit(100)]
pub proof fn lemma_decode_encoded(t: Term, o: EncodeOptions, d: Seq<u8>, p: int, fl: FloatText)
    requires
        encodable(t, o),
        at(d, p, enc_term(t, o)),
    ensures
        parse_term(d, p, fl) == Ok::<(Term, nat), DecodeError>((t, enc_term(t, o).len())),
    decreases t,
{
    let e = enc_term(t, o);
    let q = p + 1;
    match t {
        Term::SmallInteger(n) => {
            lemma_at_byte(d, p, e, 0);
            lemma_at_byte(d, p, e, 1);
        },
        Term::Integer(..) => {
            lemma_case_integer(t, o, d, p, fl);
        },
        Term::Float(..) => {
            lemma_case_float(t, o, d, p, fl);
        },
        Term::Atom(a) => {
            lemma_atom(d, p, a, o);
        },
        Term::Reference { .. } => {
            lemma_case_reference(t, o, d, p, fl);
        },
        Term::Port { .. } => {
            lemma_case_port(t, o, d, p, fl);
        },
        Term::Pid(..) => {
            lemma_case_pid(t, o, d, p, fl);
        },
        Term::Tuple(..) => {
            lemma_case_tuple(t, o, d, p, fl);
        },
        Term::MapPairs(..) => {
            lemma_case_map_pairs(t, o, d, p, fl);
        },
        Term::Nil => {
            lemma_at_byte(d, p, e, 0);
        },
        Term::String(..) => {
            lemma_case_string(t, o, d, p, fl);
        },
        Term::List(..) => {
            lemma_case_list(t, o, d, p, fl);
        },
        Term::Binary(..) => {
            lemma_case_binary(t, o, d, p, fl);
        },
        Term::BigNum(negative, digits) => {
            lemma_big(d, p, negative, digits, fl);
        },
        Term::Fun { .. } => {
            lemma_case_fun(t, o, d, p, fl);
        },
        Term::NewFun { .. } => {
            lemma_new_fun(t, o, d, p, fl);
        },
        Term::Export { .. } => {
            lemma_case_export(t, o, d, p, fl);
        },
        Term::BitBinary { .. } => {
            lemma_case_bit_binary(t, o, d, p, fl);
        },
    }
}

#[verifier::rlimit(100)]
proof fn lemma_case_integer(t: Term, o: EncodeOptions, d: Seq<u8>, p: int, fl: FloatText)
    requires
        t is Integer,
        encodable(t, o),
        at(d, p, enc_term(t, o)),
    ensures
        parse_term(d, p, fl) == Ok::<(Term, nat), DecodeError>((t, enc_term(t, o).len())),
    decreases t, 0nat,
{
    let e = enc_term(t, o);
    let q = p + 1;
    match t {
        Term::Integer(i) => {
            lemma_at_split(d, p, seq![98u8], u32_be(i as u32));
            lemma_at_byte(d, p, seq![98u8], 0);
            lemma_at_u32(d, q, i as u32);
            assert((i as u32) as i32 == i) by (bit_vector);
        },
        _ => {},
    }
}

#[verifier::rlimit(100)]
proof fn lemma_case_float(t: Term, o: EncodeOptions, d: Seq<u8>, p: int, fl: FloatText)
    requires
        t is Float,
        encodable(t, o),
        at(d, p, enc_term(t, o)),
    ensures
        parse_term(d, p, fl) == Ok::<(Term, nat), DecodeError>((t, enc_term(t, o).len())),
    decreases t, 0nat,
{
    let e = enc_term(t, o);
    let q = p + 1;
    match t {
        Term::Float(bits) => {
            lemma_at_split(d, p, seq![70u8], u64_be(bits));
            lemma_at_byte(d, p, seq![70u8], 0);
            lemma_at_u64(d, q, bits);
        },
        _ => {},
    }
}

#[verifier::rlimit(100)]
proof fn lemma_case_reference(t: Term, o: EncodeOptions, d: Seq<u8>, p: int, fl: FloatText)
    requires
        t is Reference,
        encodable(t, o),
        at(d, p, enc_term(t, o)),
    ensures
        parse_term(d, p, fl) == Ok::<(Term, nat), DecodeError>((t, enc_term(t, o).len())),
    decreases t, 0nat,
{
    let e = enc_term(t, o);
    let q = p + 1;
    match t {
        Term::Reference { node, id, creation } => {
            let h = seq![114u8] + u16_be((id.len() / 4) as u16);
            let a = enc_atom(node, o);
            lemma_at_split(d, p, h + a + seq![creation], id);
            lemma_at_split(d, p, h + a, seq![creation]);
            lemma_at_split(d, p, h, a);
            lemma_at_split(d, p, seq![114u8], u16_be((id.len() / 4) as u16));
            lemma_at_byte(d, p, seq![114u8], 0);
            lemma_at_u16(d, q, (id.len() / 4) as u16);
            lemma_atom(d, q + 2, node, o);
            lemma_at_byte(d, q + 2 + a.len(), seq![creation], 0);
            assert(4 * (id.len() / 4) == id.len());
        },
        _ => {},
    }
}

#[verifier::rlimit(100)]
proof fn lemma_case_port(t: Term, o: EncodeOptions, d: Seq<u8>, p: int, fl: FloatText)
    requires
        t is Port,
        encodable(t, o),
        at(d, p, enc_term(t, o)),
    ensures
        parse_term(d, p, fl) == Ok::<(Term, nat), DecodeError>((t, enc_term(t, o).len())),
    decreases t, 0nat,
{
    let e = enc_term(t, o);
    let q = p + 1;
    match t {
        Term::Port { node, id, creation } => {
            let a = enc_atom(node, o);
            lemma_at_split(d, p, seq![102u8] + a + u32_be(id), seq![creation]);
            lemma_at_split(d, p, seq![102u8] + a, u32_be(id));
            lemma_at_split(d, p, seq![102u8], a);
            lemma_at_byte(d, p, seq![102u8], 0);
            lemma_atom(d, q, node, o);
            lemma_at_u32(d, q + a.len(), id);
            lemma_at_byte(d, q + a.len() + 4, seq![creation], 0);
        },
        _ => {},
    }
}

#[verifier::rlimit(100)]
proof fn lemma_case_pid(t: Term, o: EncodeOptions, d: Seq<u8>, p: int, fl: FloatText)
    requires
        t is Pid,
        encodable(t, o),
        at(d, p, enc_term(t, o)),
    ensures
        parse_term(d, p, fl) == Ok::<(Term, nat), DecodeError>((t, enc_term(t, o).len())),
    decreases t, 0nat,
{
    let e = enc_term(t, o);
    let q = p + 1;
    match t {
        Term::Pid(pid) => {
            lemma_at_split(d, p, seq![103u8], enc_pid_body(pid, o));
            lemma_at_byte(d, p, seq![103u8], 0);
            lemma_pid_body(d, q, pid, o);
        },
        _ => {},
    }
}

#[verifier::rlimit(100)]
proof fn lemma_case_tuple(t: Term, o: EncodeOptions, d: Seq<u8>, p: int, fl: FloatText)
    requires
        t is Tuple,
        encodable(t, o),
        at(d, p, enc_term(t, o)),
    ensures
        parse_term(d, p, fl) == Ok::<(Term, nat), DecodeError>((t, enc_term(t, o).len())),
    decreases t, 0nat,
{
    let e = enc_term(t, o);
    let q = p + 1;
    match t {
        Term::Tuple(ts) => {
            if ts.len() <= 255 {
                lemma_at_split(d, p, seq![104u8, ts.len() as u8], enc_terms(ts, o));
                lemma_at_byte(d, p, seq![104u8, ts.len() as u8], 0);
                lemma_at_byte(d, p, seq![104u8, ts.len() as u8], 1);
                lemma_decode_encoded_terms(ts, o, d, q + 1, fl);
            } else {
                lemma_at_split(d, p, seq![105u8] + u32_be(ts.len() as u32), enc_terms(ts, o));
                lemma_at_split(d, p, seq![105u8], u32_be(ts.len() as u32));
                lemma_at_byte(d, p, seq![105u8], 0);
                lemma_at_u32(d, q, ts.len() as u32);
                lemma_decode_encoded_terms(ts, o, d, q + 4, fl);
            }
        },
        _ => {},
    }
}

#[verifier::rlimit(100)]
proof fn lemma_case_map_pairs(t: Term, o: EncodeOptions, d: Seq<u8>, p: int, fl: FloatText)
    requires
        t is MapPairs,
        encodable(t, o),
        at(d, p, enc_term(t, o)),
    ensures
        parse_term(d, p, fl) == Ok::<(Term, nat), DecodeError>((t, enc_term(t, o).len())),
    decreases t, 0nat,
{
    let e = enc_term(t, o);
    let q = p + 1;
    match t {
        Term::MapPairs(ps) => {
            lemma_at_split(d, p, seq![116u8] + u32_be(ps.len() as u32), enc_pairs(ps, o));
            lemma_at_split(d, p, seq![116u8], u32_be(ps.len() as u32));
            lemma_at_byte(d, p, seq![116u8], 0);
            lemma_at_u32(d, q, ps.len() as u32);
            lemma_decode_encoded_pairs(ps, o, d, q + 4, fl);
        },
        _ => {},
    }
}

#[verifier::rlimit(100)]
proof fn lemma_case_string(t: Term, o: EncodeOptions, d: Seq<u8>, p: int, fl: FloatText)
    requires
        t is String,
        encodable(t, o),
        at(d, p, enc_term(t, o)),
    ensures
        parse_term(d, p, fl) == Ok::<(Term, nat), DecodeError>((t, enc_term(t, o).len())),
    decreases t, 0nat,
{
    let e = enc_term(t, o);
    let q = p + 1;
    match t {
        Term::String(s) => {
            lemma_at_split(d, p, seq![107u8] + u16_be(s.len() as u16), s);
            lemma_at_split(d, p, seq![107u8], u16_be(s.len() as u16));
            lemma_at_byte(d, p, seq![107u8], 0);
            lemma_at_u16(d, q, s.len() as u16);
        },
        _ => {},
    }
}

#[verifier::rlimit(100)]
proof fn lemma_case_list(t: Term, o: EncodeOptions, d: Seq<u8>, p: int, fl: FloatText)
    requires
        t is List,
        encodable(t, o),
        at(d, p, enc_term(t, o)),
    ensures
        parse_term(d, p, fl) == Ok::<(Term, nat), DecodeError>((t, enc_term(t, o).len())),
    decreases t, 0nat,
{
    let e = enc_term(t, o);
    let q = p + 1;
    match t {
        Term::List(ts) => {
            lemma_at_split(d, p, seq![108u8] + u32_be((ts.len() - 1) as u32), enc_terms(ts, o));
            lemma_at_split(d, p, seq![108u8], u32_be((ts.len() - 1) as u32));
            lemma_at_byte(d, p, seq![108u8], 0);
            lemma_at_u32(d, q, (ts.len() - 1) as u32);
            lemma_decode_encoded_terms(ts, o, d, q + 4, fl);
        },
        _ => {},
    }
}

#[verifier::rlimit(100)]
proof fn lemma_case_binary(t: Term, o: EncodeOptions, d: Seq<u8>, p: int, fl: FloatText)
    requires
        t is Binary,
        encodable(t, o),
        at(d, p, enc_term(t, o)),
    ensures
        parse_term(d, p, fl) == Ok::<(Term, nat), DecodeError>((t, enc_term(t, o).len())),
    decreases t, 0nat,
{
    let e = enc_term(t, o);
    let q = p + 1;
    match t {
        Term::Binary(b) => {
            lemma_at_split(d, p, seq![109u8] + u32_be(b.len() as u32), b);
            lemma_at_split(d, p, seq![109u8], u32_be(b.len() as u32));
            lemma_at_byte(d, p, seq![109u8], 0);
            lemma_at_u32(d, q, b.len() as u32);
        },
        _ => {},
    }
}

#[verifier::rlimit(100)]
proof fn lemma_case_fun(t: Term, o: EncodeOptions, d: Seq<u8>, p: int, fl: FloatText)
    requires
        t is Fun,
        encodable(t, o),
        at(d, p, enc_term(t, o)),
    ensures
        parse_term(d, p, fl) == Ok::<(Term, nat), DecodeError>((t, enc_term(t, o).len())),
    decreases t, 0nat,
{
    let e = enc_term(t, o);
    let q = p + 1;
    match t {
        Term::Fun { pid, module, index, uniq, free_vars } => {
            let h = seq![117u8] + u32_be(free_vars.len() as u32);
            let pf = seq![103u8] + enc_pid_body(pid, o);
            let a = enc_atom(module, o);
            let f1 = enc_int_field(index);
            let f2 = enc_int_field(uniq);
            let fv = enc_terms(free_vars, o);
            assert(e == h + pf + a + f1 + f2 + fv) by {
                assert(e =~= h + pf + a + f1 + f2 + fv);
            }
            lemma_at_split(d, p, h + pf + a + f1 + f2, fv);
            lemma_at_split(d, p, h + pf + a + f1, f2);
            lemma_at_split(d, p, h + pf + a, f1);
            lemma_at_split(d, p, h + pf, a);
            lemma_at_split(d, p, h, pf);
            lemma_at_split(d, p, seq![117u8], u32_be(free_vars.len() as u32));
            lemma_at_byte(d, p, seq![117u8], 0);
            lemma_at_u32(d, q, free_vars.len() as u32);
            lemma_pid_field(d, q + 4, pid, o);
            lemma_atom(d, q + 4 + pf.len(), module, o);
            lemma_int_field(d, q + 4 + pf.len() + a.len(), index);
            lemma_int_field(d, q + 4 + pf.len() + a.len() + f1.len(), uniq);
            lemma_decode_encoded_terms(
                free_vars,
                o,
                d,
                q + 4 + pf.len() + a.len() + f1.len() + f2.len(),
                fl,
            );
        },
        _ => {},
    }
}

#[verifier::rlimit(100)]
proof fn lemma_case_export(t: Term, o: EncodeOptions, d: Seq<u8>, p: int, fl: FloatText)
    requires
        t is Export,
        encodable(t, o),
        at(d, p, enc_term(t, o)),
    ensures
        parse_term(d, p, fl) == Ok::<(Term, nat), DecodeError>((t, enc_term(t, o).len())),
    decreases t, 0nat,
{
    let e = enc_term(t, o);
    let q = p + 1;
    match t {
        Term::Export { module, function, arity } => {
            let a = enc_atom(module, o);
            let b = enc_atom(function, o);
            lemma_at_split(d, p, seq![113u8] + a + b, seq![97u8, arity]);
            lemma_at_split(d, p, seq![113u8] + a, b);
            lemma_at_split(d, p, seq![113u8], a);
            lemma_at_byte(d, p, seq![113u8], 0);
            lemma_atom(d, q, module, o);
            lemma_atom(d, q + a.len(), function, o);
            lemma_at_byte(d, q + a.len() + b.len(), seq![97u8, arity], 0);
            lemma_at_byte(d, q + a.len() + b.len(), seq![97u8, arity], 1);
        },
        _ => {},
    }
}

#[verifier::rlimit(100)]
proof fn lemma_case_bit_binary(t: Term, o: EncodeOptions, d: Seq<u8>, p: int, fl: FloatText)
    requires
        t is BitBinary,
        encodable(t, o),
        at(d, p, enc_term(t, o)),
    ensures
        parse_term(d, p, fl) == Ok::<(Term, nat), DecodeError>((t, enc_term(t, o).len())),
    decreases t, 0nat,
{
    let e = enc_term(t, o);
    let q = p + 1;
    match t {
        Term::BitBinary { bits, data } => {
            lemma_at_split(d, p, seq![77u8] + u32_be(data.len() as u32) + seq![bits], data);
            lemma_at_split(d, p, seq![77u8] + u32_be(data.len() as u32), seq![bits]);
            lemma_at_split(d, p, seq![77u8], u32_be(data.len() as u32));
            lemma_at_byte(d, p, seq![77u8], 0);
            lemma_at_u32(d, q, data.len() as u32);
            lemma_at_byte(d, q + 4, seq![bits], 0);
        },
        _ => {},
    }
}

#[verifier::rlimit(100)]
proof fn lemma_big(d: Seq<u8>, p: int, negative: bool, digits: Seq<u32>, fl: FloatText)
    requires
        digits_normal(digits),
        digits.len() == 0 ==> !negative,
        magnitude(digits).len() <= 0xFFFF_FFFF,
        at(d, p, enc_big(negative, digits)),
    ensures
        parse_term(d, p, fl) == Ok::<(Term, nat), DecodeError>(
            (Term::BigNum(negative, digits), enc_big(negative, digits).len()),
        ),
{
    let m = magnitude(digits);
    let sign: u8 = if negative { 1 } else { 0 };
    let q = p + 1;
    lemma_magnitude_packs_back(digits);
    if m.len() < 255 {
        lemma_at_split(d, p, seq![110u8, m.len() as u8, sign], m);
        lemma_at_byte(d, p, seq![110u8, m.len() as u8, sign], 0);
        lemma_at_byte(d, p, seq![110u8, m.len() as u8, sign], 1);
        lemma_at_byte(d, p, seq![110u8, m.len() as u8, sign], 2);
        assert(bytes_at(d, q + 2, m.len()) == m);
    } else {
        lemma_at_split(d, p, seq![111u8] + u32_be(m.len() as u32) + seq![sign], m);
        lemma_at_split(d, p, seq![111u8] + u32_be(m.len() as u32), seq![sign]);
        lemma_at_split(d, p, seq![111u8], u32_be(m.len() as u32));
        lemma_at_byte(d, p, seq![111u8], 0);
        lemma_at_u32(d, q, m.len() as u32);
        lemma_at_byte(d, q + 4, seq![sign], 0);
        assert(bytes_at(d, q + 5, m.len()) == m);
    }
}

#[verifier::rlimit(100)]
proof fn lemma_new_fun(t: Term, o: EncodeOptions, d: Seq<u8>, p: int, fl: FloatText)
    requires
        t is NewFun,
        encodable(t, o),
        at(d, p, enc_term(t, o)),
    ensures
        parse_term(d, p, fl) == Ok::<(Term, nat), DecodeError>((t, enc_term(t, o).len())),
    decreases t, 0nat,
{
    match t {
        Term::NewFun { arity, uniq, index, module, old_index, old_uniq, pid, free_vars } => {
            let e = enc_term(t, o);
            let q = p + 1;
            let nb = new_fun_body(arity, uniq, index, free_vars.len(), module, old_index, old_uniq, pid, o);
            let fv = enc_terms(free_vars, o);
            let size: u32 = if o.fair_new_fun { (4 + (nb + fv).len()) as u32 } else { 0 };
            let fixed = seq![arity] + uniq + u32_be(index) + u32_be(free_vars.len() as u32);
            let a = enc_atom(module, o);
            let f1 = enc_int_field(old_index);
            let f2 = enc_int_field(old_uniq);
            let pf = seq![103u8] + enc_pid_body(pid, o);
            let h = seq![112u8] + u32_be(size);
            assert(e =~= h + fixed + a + f1 + f2 + pf + fv);
            lemma_at_split(d, p, h + fixed + a + f1 + f2 + pf, fv);
            lemma_at_split(d, p, h + fixed + a + f1 + f2, pf);
            lemma_at_split(d, p, h + fixed + a + f1, f2);
            lemma_at_split(d, p, h + fixed + a, f1);
            lemma_at_split(d, p, h + fixed, a);
            lemma_at_split(d, p, h, fixed);
            lemma_at_split(d, p, seq![112u8], u32_be(size));
            lemma_at_byte(d, p, seq![112u8], 0);
            let r = q + 4;
            lemma_at_split(d, r, seq![arity] + uniq + u32_be(index), u32_be(free_vars.len() as u32));
            lemma_at_split(d, r, seq![arity] + uniq, u32_be(index));
            lemma_at_split(d, r, seq![arity], uniq);
            lemma_at_byte(d, r, seq![arity], 0);
            lemma_at_u32(d, r + 17, index);
            lemma_at_u32(d, r + 21, free_vars.len() as u32);
            assert(bytes_at(d, q + 5, 16) == uniq);
            lemma_atom(d, q + 29, module, o);
            lemma_int_field(d, q + 29 + a.len(), old_index);
            lemma_int_field(d, q + 29 + a.len() + f1.len(), old_uniq);
            lemma_pid_field(d, q + 29 + a.len() + f1.len() + f2.len(), pid, o);
            lemma_decode_encoded_terms(
                free_vars,
                o,
                d,
                q + 29 + a.len() + f1.len() + f2.len() + pf.len(),
                fl,
            );
        },
        _ => {},
    }
}

/// Round trip: the stream that the encoder writes for an encodable term,
/// under any options (its prelude byte, then the term), starts with the
/// version byte, and decoding from the next byte on gives the term back
/// and consumes exactly its encoding, whatever follows it and whatever
/// legacy float text means.
pub proof fn lemma_round_trip(t: Term, o: EncodeOptions, rest: Seq<u8>, fl: FloatText)
    requires
        encodable(t, o),
    ensures
        ({
            let s = seq![131u8] + enc_term(t, o) + rest;
            &&& s[0] == 131
            &&& parse_term(s, 1, fl) == Ok::<(Term, nat), DecodeError>((t, enc_term(t, o).len()))
        }),
{
    let e = enc_term(t, o);
    let s = seq![131u8] + e + rest;
    assert(s.subrange(0, s.len() as int) =~= s);
    lemma_at_split(s, 0, seq![131u8] + e, rest);
    lemma_at_split(s, 0, seq![131u8], e);
    lemma_at_byte(s, 0, seq![131u8], 0);
    lemma_decode_encoded(t, o, s, 1, fl);
}

/// A byte outside the tag set, where a term begins, fails the decode with
/// that byte and nothing else.
pub proof fn lemma_unknown_tag(d: Seq<u8>, p: int, fl: FloatText)
    requires
        avail(d, p, 1),
        tag_of(d[p]) is None,
    ensures
        parse_term(d, p, fl) == Err::<(Term, nat), DecodeError>(DecodeError::UnknownTag(d[p])),
{
}

/// A list whose wire length is `L` decodes to `L + 1` elements, the last
/// being the tail that was encoded.
pub proof fn lemma_list_tail(ts: Seq<Term>, o: EncodeOptions, fl: FloatText)
    requires
        encodable(Term::List(ts), o),
    ensures
        ({
            let e = enc_term(Term::List(ts), o);
            let wire_len = u32_at(e, 1) as int;
            &&& parse_term(e, 0, fl) matches Ok((Term::List(back), k))
            &&& back.len() == wire_len + 1
            &&& back.last() == ts.last()
            &&& k == e.len()
        }),
{
    let e = enc_term(Term::List(ts), o);
    assert(at(e, 0, e)) by {
        assert(e.subrange(0, e.len() as int) =~= e);
    }
    lemma_decode_encoded(Term::List(ts), o, e, 0, fl);
    lemma_at_split(e, 0, seq![108u8] + u32_be((ts.len() - 1) as u32), enc_terms(ts, o));
    lemma_at_split(e, 0, seq![108u8], u32_be((ts.len() - 1) as u32));
    lemma_at_u32(e, 1, (ts.len() - 1) as u32);
}

/// A big integer in normal form decodes to itself, and the encoder picks
/// the small form exactly when the magnitude is under 255 bytes.
#[verifier::rlimit(100)]
pub proof fn lemma_big_round_trip(negative: bool, digits: Seq<u32>, o: EncodeOptions, fl: FloatText)
    requires
        encodable(Term::BigNum(negative, digits), o),
    ensures
        ({
            let e = enc_term(Term::BigNum(negative, digits), o);
            &&& parse_term(e, 0, fl) == Ok::<(Term, nat), DecodeError>(
                (Term::BigNum(negative, digits), e.len()),
            )
            &&& e[0] == if magnitude(digits).len() < 255 {
                110u8
            } else {
                111u8
            }
        }),
{
    let e = enc_term(Term::BigNum(negative, digits), o);
    assert(at(e, 0, e)) by {
        assert(e.subrange(0, e.len() as int) =~= e);
    }
    assert(e[0] == if magnitude(digits).len() < 255 {
        110u8
    } else {
        111u8
    }) by {
        let m = magnitude(digits);
        let sign: u8 = if negative {
            1
        } else {
            0
        };
        if m.len() < 255 {
            assert(e == seq![110u8, m.len() as u8, sign] + m);
        } else {
            assert(e == seq![111u8] + u32_be(m.len() as u32) + seq![sign] + m);
        }
    }
    lemma_decode_encoded(Term::BigNum(negative, digits), o, e, 0, fl);
}

} // verus!
