//! The decoder: reads one term from a byte slice.
use vstd::prelude::*;
use vstd::slice::{slice_subrange, slice_to_vec};
use vstd::utf8::{decode_utf8, valid_utf8};
use crate::bytes::{u16_at, u32_at, u64_at};
use crate::tag::{lemma_tag_byte, tag_of, ErlTermTag};
use crate::term::{
    lemma_fun_views, lemma_pair_views, lemma_seq_views, pair_views, views, BigNum, Eterm, Pid, Term,
};
use crate::wire::{
    avail, bytes_at, parse_any_atom, parse_atom_body, parse_big, parse_body, parse_int_field,
    parse_pairs, parse_pid_body, parse_pid_field, parse_small_int_field, parse_tag, parse_term,
    parse_terms, parse_text, rest, DecodeError, FloatText,
};

verus! {

/// The reader of legacy float text is total, and gives one answer for
/// each text.
pub open spec fn float_reader_ok<F: Fn(&str) -> Option<u64>>(f: F) -> bool {
    &&& forall|s: &str| #[trigger] f.requires((s,))
    &&& forall|s1: &str, s2: &str, r1: Option<u64>, r2: Option<u64>|
        #![trigger f.ensures((s1,), r1), f.ensures((s2,), r2)]
        s1@ == s2@ && f.ensures((s1,), r1) && f.ensures((s2,), r2) ==> r1 == r2
}

/// The float reader may give `r` for a text.
pub open spec fn float_answer<F: Fn(&str) -> Option<u64>>(f: F, text: Seq<char>, r: Option<u64>) -> bool {
    exists|s: &str| s@ == text && #[trigger] f.ensures((s,), r)
}

/// What the float reader gives for a text.
pub open spec fn float_text_value<F: Fn(&str) -> Option<u64>>(f: F, text: Seq<char>) -> Option<
    u64,
> {
    choose|r: Option<u64>| #[trigger] float_answer(f, text, r)
}

proof fn lemma_float_text_value<F: Fn(&str) -> Option<u64>>(f: F, s: &str, r: Option<u64>)
    requires
        float_reader_ok(f),
        f.ensures((s,), r),
    ensures
        float_text_value(f, s@) == r,
{
    assert(float_answer(f, s@, r));
    let r2 = float_text_value(f, s@);
    assert(float_answer(f, s@, r2));
    let t = choose|t: &str| t@ == s@ && #[trigger] f.ensures((t,), r2);
    assert(f.ensures((t,), r2) && f.ensures((s,), r));
}

/// Relies on `String::from_utf8`: it accepts exactly the well-formed UTF-8
/// byte vectors, and the text it returns is what those bytes spell.
#[verifier::external_body]
fn string_from_utf8(bytes: Vec<u8>) -> (r: Option<String>)
    ensures
        r is Some <==> valid_utf8(bytes@),
        r matches Some(s) ==> s@ == decode_utf8(bytes@),
{
    String::from_utf8(bytes).ok()
}

/// An executable result against the spec result it must match: the same
/// value and length consumed, or the same error.
pub open spec fn same_outcome<A, B>(
    r: Result<A, DecodeError>,
    view: spec_fn(A) -> B,
    consumed: int,
    expected: Result<(B, nat), DecodeError>,
) -> bool {
    match (r, expected) {
        (Ok(a), Ok((b, k))) => view(a) == b && consumed == k,
        (Err(e), Err(e2)) => e == e2,
        _ => false,
    }
}

/// `r` with `acc` in front of its terms and `k0` more bytes consumed.
pub open spec fn after<A>(acc: Seq<A>, k0: int, r: Result<(Seq<A>, nat), DecodeError>) -> Result<
    (Seq<A>, nat),
    DecodeError,
> {
    match r {
        Ok((ts, k)) => Ok((acc + ts, (k0 + k) as nat)),
        Err(e) => Err(e),
    }
}

/// Reads one term from a byte slice. Legacy float text is handed to the
/// float reader given at construction.
pub struct Decoder<'a, F> {
    rdr: &'a [u8],
    pos: usize,
    legacy_float: F,
}

impl<'a, F: Fn(&str) -> Option<u64>> Decoder<'a, F> {
    /// The input.
    pub closed spec fn data(&self) -> Seq<u8> {
        self.rdr@
    }

    /// How many bytes have been consumed.
    pub closed spec fn pos(&self) -> int {
        self.pos as int
    }

    pub closed spec fn float_reader(&self) -> F {
        self.legacy_float
    }

    /// What each legacy float text decodes to.
    pub open spec fn floats(&self) -> FloatText {
        |s: Seq<char>| float_text_value(self.float_reader(), s)
    }

    pub open spec fn wf(&self) -> bool {
        &&& float_reader_ok(self.float_reader())
        &&& 0 <= self.pos() <= self.data().len()
    }

    /// Same input and float reader as `old`, and no fewer bytes consumed.
    pub open spec fn advanced_from(&self, old: &Self) -> bool {
        &&& self.wf()
        &&& self.data() == old.data()
        &&& self.float_reader() == old.float_reader()
        &&& old.pos() <= self.pos()
    }

    pub fn new(rdr: &'a [u8], legacy_float: F) -> (r: Self)
        requires
            float_reader_ok(legacy_float),
        ensures
            r.wf(),
            r.data() == rdr@,
            r.pos() == 0,
            r.float_reader() == legacy_float,
    {
        Decoder { rdr, pos: 0, legacy_float }
    }

    fn read_u8(&mut self) -> (r: Result<u8, DecodeError>)
        requires
            old(self).wf(),
        ensures
            final(self).advanced_from(old(self)),
            same_outcome(
                r,
                |b: u8| b,
                final(self).pos() - old(self).pos(),
                if avail(old(self).data(), old(self).pos(), 1) {
                    Ok((old(self).data()[old(self).pos()], 1nat))
                } else {
                    Err(DecodeError::Eof)
                },
            ),
    {
        if self.pos < self.rdr.len() {
            let b = self.rdr[self.pos];
            self.pos = self.pos + 1;
            Ok(b)
        } else {
            Err(DecodeError::Eof)
        }
    }

    fn read_be_u16(&mut self) -> (r: Result<u16, DecodeError>)
        requires
            old(self).wf(),
        ensures
            final(self).advanced_from(old(self)),
            same_outcome(
                r,
                |v: u16| v,
                final(self).pos() - old(self).pos(),
                if avail(old(self).data(), old(self).pos(), 2) {
                    Ok((u16_at(old(self).data(), old(self).pos()), 2nat))
                } else {
                    Err(DecodeError::Eof)
                },
            ),
    {
        if self.rdr.len() - self.pos >= 2 {
            let p = self.pos;
            let v = (self.rdr[p] as u16) << 8u16 | self.rdr[p + 1] as u16;
            self.pos = p + 2;
            Ok(v)
        } else {
            Err(DecodeError::Eof)
        }
    }

    fn read_be_u32(&mut self) -> (r: Result<u32, DecodeError>)
        requires
            old(self).wf(),
        ensures
            final(self).advanced_from(old(self)),
            same_outcome(
                r,
                |v: u32| v,
                final(self).pos() - old(self).pos(),
                if avail(old(self).data(), old(self).pos(), 4) {
                    Ok((u32_at(old(self).data(), old(self).pos()), 4nat))
                } else {
                    Err(DecodeError::Eof)
                },
            ),
    {
        if self.rdr.len() - self.pos >= 4 {
            let p = self.pos;
            let v = (self.rdr[p] as u32) << 24u32 | (self.rdr[p + 1] as u32) << 16u32 | (self.rdr[p
                + 2] as u32) << 8u32 | self.rdr[p + 3] as u32;
            self.pos = p + 4;
            Ok(v)
        } else {
            Err(DecodeError::Eof)
        }
    }

    fn read_be_u64(&mut self) -> (r: Result<u64, DecodeError>)
        requires
            old(self).wf(),
        ensures
            final(self).advanced_from(old(self)),
            same_outcome(
                r,
                |v: u64| v,
                final(self).pos() - old(self).pos(),
                if avail(old(self).data(), old(self).pos(), 8) {
                    Ok((u64_at(old(self).data(), old(self).pos()), 8nat))
                } else {
                    Err(DecodeError::Eof)
                },
            ),
    {
        if self.rdr.len() - self.pos >= 8 {
            let p = self.pos;
            let v = (self.rdr[p] as u64) << 56u64 | (self.rdr[p + 1] as u64) << 48u64 | (self.rdr[p
                + 2] as u64) << 40u64 | (self.rdr[p + 3] as u64) << 32u64 | (self.rdr[p + 4] as u64)
                << 24u64 | (self.rdr[p + 5] as u64) << 16u64 | (self.rdr[p + 6] as u64) << 8u64
                | self.rdr[p + 7] as u64;
            self.pos = p + 8;
            proof {
                let s = self.rdr@.subrange(p as int, p + 8);
                assert(s[0] == self.rdr@[p as int] && s[1] == self.rdr@[p + 1] && s[2]
                    == self.rdr@[p + 2] && s[3] == self.rdr@[p + 3] && s[4] == self.rdr@[p + 4]
                    && s[5] == self.rdr@[p + 5] && s[6] == self.rdr@[p + 6] && s[7]
                    == self.rdr@[p + 7]);
            }
            Ok(v)
        } else {
            Err(DecodeError::Eof)
        }
    }

    fn read_exact(&mut self, n: usize) -> (r: Result<Vec<u8>, DecodeError>)
        requires
            old(self).wf(),
        ensures
            final(self).advanced_from(old(self)),
            same_outcome(
                r,
                |v: Vec<u8>| v@,
                final(self).pos() - old(self).pos(),
                if avail(old(self).data(), old(self).pos(), n as nat) {
                    Ok((bytes_at(old(self).data(), old(self).pos(), n as nat), n as nat))
                } else {
                    Err(DecodeError::Eof)
                },
            ),
    {
        if self.rdr.len() - self.pos >= n {
            let p = self.pos;
            let v = slice_to_vec(slice_subrange(self.rdr, p, p + n));
            self.pos = p + n;
            Ok(v)
        } else {
            Err(DecodeError::Eof)
        }
    }

    /// Reads one byte and tells whether it is the format's version byte,
    /// 131. Nothing else is read.
    pub fn read_prelude(&mut self) -> (r: Result<bool, DecodeError>)
        requires
            old(self).wf(),
        ensures
            final(self).advanced_from(old(self)),
            same_outcome(
                r,
                |b: bool| b,
                final(self).pos() - old(self).pos(),
                if avail(old(self).data(), old(self).pos(), 1) {
                    Ok((old(self).data()[old(self).pos()] == 131, 1nat))
                } else {
                    Err(DecodeError::Eof)
                },
            ),
    {
        let b = self.read_u8()?;
        Ok(b == 131)
    }

    /// `r` is what the spec says the body of a `tag` term at `old`'s
    /// position decodes to, and `new` is past it.
    pub open spec fn decoded_body(
        old: &Self,
        new: &Self,
        tag: ErlTermTag,
        r: Result<Eterm, DecodeError>,
    ) -> bool {
        same_outcome(
            r,
            |t: Eterm| t@,
            new.pos() - old.pos(),
            parse_body(old.data(), old.pos(), tag, old.floats()),
        )
    }

    fn _decode_tag(&mut self) -> (r: Result<ErlTermTag, DecodeError>)
        requires
            old(self).wf(),
        ensures
            final(self).advanced_from(old(self)),
            same_outcome(
                r,
                |t: ErlTermTag| t,
                final(self).pos() - old(self).pos(),
                match parse_tag(old(self).data(), old(self).pos()) {
                    Ok(t) => Ok((t, 1nat)),
                    Err(e) => Err(e),
                },
            ),
            r is Err && avail(old(self).data(), old(self).pos(), 1) ==> final(self).pos() == old(
                self,
            ).pos() + 1,
    {
        let int_tag = self.read_u8()?;
        match ErlTermTag::from_u8(int_tag) {
            Some(t) => Ok(t),
            None => Err(DecodeError::UnknownTag(int_tag)),
        }
    }

    fn _read_str(&mut self, len: usize) -> (r: Result<String, DecodeError>)
        requires
            old(self).wf(),
        ensures
            final(self).advanced_from(old(self)),
            same_outcome(
                r,
                |s: String| s@,
                final(self).pos() - old(self).pos(),
                match parse_text(old(self).data(), old(self).pos(), len as nat) {
                    Ok(t) => Ok((t, len as nat)),
                    Err(e) => Err(e),
                },
            ),
    {
        let utf8 = self.read_exact(len)?;
        match string_from_utf8(utf8) {
            Some(s) => Ok(s),
            None => Err(DecodeError::BadText),
        }
    }

    /// An atom body with a 16-bit length.
    fn decode_atom(&mut self) -> (r: Result<String, DecodeError>)
        requires
            old(self).wf(),
        ensures
            final(self).advanced_from(old(self)),
            same_outcome(
                r,
                |s: String| s@,
                final(self).pos() - old(self).pos(),
                parse_atom_body(old(self).data(), old(self).pos(), false),
            ),
    {
        let len = self.read_be_u16()?;
        self._read_str(len as usize)
    }

    /// An atom body with an 8-bit length.
    fn decode_small_atom(&mut self) -> (r: Result<String, DecodeError>)
        requires
            old(self).wf(),
        ensures
            final(self).advanced_from(old(self)),
            same_outcome(
                r,
                |s: String| s@,
                final(self).pos() - old(self).pos(),
                parse_atom_body(old(self).data(), old(self).pos(), true),
            ),
    {
        let len = self.read_u8()?;
        self._read_str(len as usize)
    }

    /// An atom under any of the four atom tags.
    fn _decode_any_atom(&mut self) -> (r: Result<String, DecodeError>)
        requires
            old(self).wf(),
        ensures
            final(self).advanced_from(old(self)),
            same_outcome(
                r,
                |s: String| s@,
                final(self).pos() - old(self).pos(),
                parse_any_atom(old(self).data(), old(self).pos()),
            ),
    {
        let tag = self._decode_tag()?;
        proof {
            lemma_tag_byte(tag, old(self).data()[old(self).pos()]);
        }
        match tag {
            ErlTermTag::ATOM_EXT | ErlTermTag::ATOM_UTF8_EXT => self.decode_atom(),
            ErlTermTag::SMALL_ATOM_EXT | ErlTermTag::SMALL_ATOM_UTF8_EXT => self.decode_small_atom(),
            _ => Err(DecodeError::UnexpectedTag(tag.to_u8())),
        }
    }

    fn decode_pid(&mut self) -> (r: Result<Pid, DecodeError>)
        requires
            old(self).wf(),
        ensures
            final(self).advanced_from(old(self)),
            same_outcome(
                r,
                |p: Pid| p@,
                final(self).pos() - old(self).pos(),
                parse_pid_body(old(self).data(), old(self).pos()),
            ),
    {
        let node = self._decode_any_atom()?;
        let id = self.read_be_u32()?;
        let serial = self.read_be_u32()?;
        let creation = self.read_u8()?;
        Ok(Pid { node, id, serial, creation })
    }

    /// A field that must be a pid term.
    fn _decode_pid_field(&mut self) -> (r: Result<Pid, DecodeError>)
        requires
            old(self).wf(),
        ensures
            final(self).advanced_from(old(self)),
            same_outcome(
                r,
                |p: Pid| p@,
                final(self).pos() - old(self).pos(),
                parse_pid_field(old(self).data(), old(self).pos()),
            ),
    {
        let tag = self._decode_tag()?;
        proof {
            lemma_tag_byte(tag, old(self).data()[old(self).pos()]);
        }
        match tag {
            ErlTermTag::PID_EXT => self.decode_pid(),
            _ => Err(DecodeError::UnexpectedTag(tag.to_u8())),
        }
    }

    /// A field that must be a small or a full-width integer term.
    fn _decode_int_field(&mut self) -> (r: Result<u32, DecodeError>)
        requires
            old(self).wf(),
        ensures
            final(self).advanced_from(old(self)),
            same_outcome(
                r,
                |v: u32| v,
                final(self).pos() - old(self).pos(),
                parse_int_field(old(self).data(), old(self).pos()),
            ),
    {
        let tag = self._decode_tag()?;
        proof {
            lemma_tag_byte(tag, old(self).data()[old(self).pos()]);
        }
        match tag {
            ErlTermTag::SMALL_INTEGER_EXT => {
                let v = self.read_u8()?;
                Ok(v as u32)
            },
            ErlTermTag::INTEGER_EXT => self.read_be_u32(),
            _ => Err(DecodeError::UnexpectedTag(tag.to_u8())),
        }
    }

    /// A field that must be a small integer term.
    fn _decode_arity_field(&mut self) -> (r: Result<u8, DecodeError>)
        requires
            old(self).wf(),
        ensures
            final(self).advanced_from(old(self)),
            same_outcome(
                r,
                |v: u8| v,
                final(self).pos() - old(self).pos(),
                parse_small_int_field(old(self).data(), old(self).pos()),
            ),
    {
        let tag = self._decode_tag()?;
        proof {
            lemma_tag_byte(tag, old(self).data()[old(self).pos()]);
        }
        match tag {
            ErlTermTag::SMALL_INTEGER_EXT => self.read_u8(),
            _ => Err(DecodeError::UnexpectedTag(tag.to_u8())),
        }
    }

    fn decode_float(&mut self) -> (r: Result<Eterm, DecodeError>)
        requires
            old(self).wf(),
        ensures
            final(self).advanced_from(old(self)),
            Self::decoded_body(old(self), final(self), ErlTermTag::FLOAT_EXT, r),
    {
        let float_str = self._read_str(31)?;
        proof {
            assert(forall|s: &str| #[trigger] self.legacy_float.requires((s,)));
        }
        let text = float_str.as_str();
        let parsed = (self.legacy_float)(text);
        proof {
            lemma_float_text_value(self.legacy_float, text, parsed);
        }
        match parsed {
            Some(bits) => Ok(Eterm::Float(bits)),
            None => Err(DecodeError::BadFloat),
        }
    }

    fn decode_reference(&mut self) -> (r: Result<Eterm, DecodeError>)
        requires
            old(self).wf(),
        ensures
            final(self).advanced_from(old(self)),
            Self::decoded_body(old(self), final(self), ErlTermTag::REFERENCE_EXT, r),
    {
        let node = self._decode_any_atom()?;
        let id = self.read_exact(4)?;
        let creation = self.read_u8()?;
        Ok(Eterm::Reference { node, id, creation })
    }

    #[verifier::rlimit(60)]
    fn decode_new_reference(&mut self) -> (r: Result<Eterm, DecodeError>)
        requires
            old(self).wf(),
        ensures
            final(self).advanced_from(old(self)),
            Self::decoded_body(old(self), final(self), ErlTermTag::NEW_REFERENCE_EXT, r),
    {
        let len = self.read_be_u16()?;
        let node = self._decode_any_atom()?;
        let creation = self.read_u8()?;
        let id = self.read_exact(4 * len as usize)?;
        Ok(Eterm::Reference { node, id, creation })
    }

    fn decode_port(&mut self) -> (r: Result<Eterm, DecodeError>)
        requires
            old(self).wf(),
        ensures
            final(self).advanced_from(old(self)),
            Self::decoded_body(old(self), final(self), ErlTermTag::PORT_EXT, r),
    {
        let node = self._decode_any_atom()?;
        let id = self.read_be_u32()?;
        let creation = self.read_u8()?;
        Ok(Eterm::Port { node, id, creation })
    }

    /// `n` terms one after another.
    #[verifier::rlimit(60)]
    fn decode_terms(&mut self, n: u64) -> (r: Result<Vec<Eterm>, DecodeError>)
        requires
            old(self).wf(),
        ensures
            final(self).advanced_from(old(self)),
            same_outcome(
                r,
                |v: Vec<Eterm>| views(v@),
                final(self).pos() - old(self).pos(),
                parse_terms(old(self).data(), old(self).pos(), n as nat, old(self).floats()),
            ),
        decreases rest(old(self).data(), old(self).pos()), 4nat,
    {
        let ghost d = self.data();
        let ghost f0 = self.float_reader();
        let ghost p0 = self.pos();
        let ghost fl = self.floats();
        let mut terms: Vec<Eterm> = Vec::new();
        let mut i: u64 = 0;
        while i < n
            invariant
                self.wf(),
                old(self).data() == d,
                old(self).float_reader() == f0,
                old(self).pos() == p0,
                self.data() == d,
                self.float_reader() == f0,
                self.floats() == fl,
                p0 <= self.pos(),
                0 <= i <= n,
                parse_terms(d, p0, n as nat, fl) == after(
                    views(terms@),
                    self.pos() - p0,
                    parse_terms(d, self.pos(), (n - i) as nat, fl),
                ),
            decreases n - i,
        {
            let ghost p1 = self.pos();
            let term = self.decode_term()?;
            proof {
                let k = self.pos() - p1;
                assert(parse_term(d, p1, fl) == Ok::<(Term, nat), DecodeError>((term@, k as nat)));
                let tail = parse_terms(d, self.pos(), (n - i - 1) as nat, fl);
                assert(parse_terms(d, p1, (n - i) as nat, fl) == match tail {
                    Ok((ts, k2)) => Ok::<(Seq<Term>, nat), DecodeError>((seq![term@] + ts, (k + k2) as nat)),
                    Err(e) => Err(e),
                });
                assert(views(terms@.push(term)) =~= views(terms@).push(term@));
                match tail {
                    Ok((ts, k2)) => {
                        assert(views(terms@) + (seq![term@] + ts) =~= views(terms@).push(term@) + ts);
                    },
                    Err(e) => {},
                }
            }
            terms.push(term);
            i = i + 1;
        }
        Ok(terms)
    }

    /// `n` key-value pairs, each key before its value.
    #[verifier::rlimit(40)]
    fn decode_pairs(&mut self, n: u64) -> (r: Result<Vec<(Eterm, Eterm)>, DecodeError>)
        requires
            old(self).wf(),
        ensures
            final(self).advanced_from(old(self)),
            same_outcome(
                r,
                |v: Vec<(Eterm, Eterm)>| pair_views(v@),
                final(self).pos() - old(self).pos(),
                parse_pairs(old(self).data(), old(self).pos(), n as nat, old(self).floats()),
            ),
        decreases rest(old(self).data(), old(self).pos()), 4nat,
    {
        let ghost d = self.data();
        let ghost f0 = self.float_reader();
        let ghost p0 = self.pos();
        let ghost fl = self.floats();
        let mut map: Vec<(Eterm, Eterm)> = Vec::new();
        let mut i: u64 = 0;
        while i < n
            invariant
                self.wf(),
                old(self).data() == d,
                old(self).float_reader() == f0,
                old(self).pos() == p0,
                self.data() == d,
                self.float_reader() == f0,
                self.floats() == fl,
                p0 <= self.pos(),
                0 <= i <= n,
                parse_pairs(d, p0, n as nat, fl) == after(
                    pair_views(map@),
                    self.pos() - p0,
                    parse_pairs(d, self.pos(), (n - i) as nat, fl),
                ),
            decreases n - i,
        {
            let ghost p1 = self.pos();
            let key = self.decode_term()?;
            let ghost p2 = self.pos();
            let val = self.decode_term()?;
            proof {
                let k1 = p2 - p1;
                let k2 = self.pos() - p2;
                assert(parse_term(d, p1, fl) == Ok::<(Term, nat), DecodeError>((key@, k1 as nat)));
                assert(parse_term(d, p2, fl) == Ok::<(Term, nat), DecodeError>((val@, k2 as nat)));
                let tail = parse_pairs(d, self.pos(), (n - i - 1) as nat, fl);
                assert(parse_pairs(d, p1, (n - i) as nat, fl) == match tail {
                    Ok((ps, k3)) => Ok::<(Seq<(Term, Term)>, nat), DecodeError>(
                        (seq![(key@, val@)] + ps, (k1 + k2 + k3) as nat),
                    ),
                    Err(e) => Err(e),
                });
                assert(pair_views(map@.push((key, val))) =~= pair_views(map@).push((key@, val@)));
                match tail {
                    Ok((ps, k3)) => {
                        assert(pair_views(map@) + (seq![(key@, val@)] + ps) =~= pair_views(map@).push(
                            (key@, val@),
                        ) + ps);
                    },
                    Err(e) => {},
                }
            }
            map.push((key, val));
            i = i + 1;
        }
        Ok(map)
    }

    fn decode_small_tuple(&mut self) -> (r: Result<Eterm, DecodeError>)
        requires
            old(self).wf(),
        ensures
            final(self).advanced_from(old(self)),
            Self::decoded_body(old(self), final(self), ErlTermTag::SMALL_TUPLE_EXT, r),
        decreases rest(old(self).data(), old(self).pos()), 1nat,
    {
        let arity = self.read_u8()?;
        let tuple = self.decode_terms(arity as u64)?;
        proof {
            lemma_seq_views(tuple);
        }
        Ok(Eterm::Tuple(tuple))
    }

    fn decode_large_tuple(&mut self) -> (r: Result<Eterm, DecodeError>)
        requires
            old(self).wf(),
        ensures
            final(self).advanced_from(old(self)),
            Self::decoded_body(old(self), final(self), ErlTermTag::LARGE_TUPLE_EXT, r),
        decreases rest(old(self).data(), old(self).pos()), 1nat,
    {
        let arity = self.read_be_u32()?;
        let tuple = self.decode_terms(arity as u64)?;
        proof {
            lemma_seq_views(tuple);
        }
        Ok(Eterm::Tuple(tuple))
    }

    fn decode_map(&mut self) -> (r: Result<Eterm, DecodeError>)
        requires
            old(self).wf(),
        ensures
            final(self).advanced_from(old(self)),
            Self::decoded_body(old(self), final(self), ErlTermTag::MAP_EXT, r),
        decreases rest(old(self).data(), old(self).pos()), 1nat,
    {
        let arity = self.read_be_u32()?;
        let map = self.decode_pairs(arity as u64)?;
        proof {
            lemma_pair_views(map);
        }
        Ok(Eterm::MapPairs(map))
    }

    fn decode_string(&mut self) -> (r: Result<Eterm, DecodeError>)
        requires
            old(self).wf(),
        ensures
            final(self).advanced_from(old(self)),
            Self::decoded_body(old(self), final(self), ErlTermTag::STRING_EXT, r),
    {
        let len = self.read_be_u16()?;
        let s = self.read_exact(len as usize)?;
        Ok(Eterm::String(s))
    }

    /// A list: its wire length does not count the tail, so one more term
    /// than the length is read.
    fn decode_list(&mut self) -> (r: Result<Eterm, DecodeError>)
        requires
            old(self).wf(),
        ensures
            final(self).advanced_from(old(self)),
            Self::decoded_body(old(self), final(self), ErlTermTag::LIST_EXT, r),
        decreases rest(old(self).data(), old(self).pos()), 1nat,
    {
        let len = self.read_be_u32()?;
        let list = self.decode_terms(len as u64 + 1)?;
        proof {
            lemma_seq_views(list);
        }
        Ok(Eterm::List(list))
    }

    fn decode_binary(&mut self) -> (r: Result<Eterm, DecodeError>)
        requires
            old(self).wf(),
        ensures
            final(self).advanced_from(old(self)),
            Self::decoded_body(old(self), final(self), ErlTermTag::BINARY_EXT, r),
    {
        let len = self.read_be_u32()?;
        let bin = self.read_exact(len as usize)?;
        Ok(Eterm::Binary(bin))
    }

    /// A sign byte and `n` magnitude bytes.
    fn _decode_big(&mut self, n: usize) -> (r: Result<Eterm, DecodeError>)
        requires
            old(self).wf(),
        ensures
            final(self).advanced_from(old(self)),
            same_outcome(
                r,
                |t: Eterm| t@,
                final(self).pos() - old(self).pos(),
                parse_big(old(self).data(), old(self).pos(), n as nat),
            ),
    {
        let sign = self.read_u8()?;
        let mag = self.read_exact(n)?;
        let num = BigNum::from_wire(sign, mag.as_slice());
        Ok(Eterm::BigNum(num))
    }

    fn decode_small_big(&mut self) -> (r: Result<Eterm, DecodeError>)
        requires
            old(self).wf(),
        ensures
            final(self).advanced_from(old(self)),
            Self::decoded_body(old(self), final(self), ErlTermTag::SMALL_BIG_EXT, r),
    {
        let n = self.read_u8()?;
        self._decode_big(n as usize)
    }

    fn decode_large_big(&mut self) -> (r: Result<Eterm, DecodeError>)
        requires
            old(self).wf(),
        ensures
            final(self).advanced_from(old(self)),
            Self::decoded_body(old(self), final(self), ErlTermTag::LARGE_BIG_EXT, r),
    {
        let n = self.read_be_u32()?;
        self._decode_big(n as usize)
    }

    #[verifier::rlimit(60)]
    fn decode_fun(&mut self) -> (r: Result<Eterm, DecodeError>)
        requires
            old(self).wf(),
        ensures
            final(self).advanced_from(old(self)),
            Self::decoded_body(old(self), final(self), ErlTermTag::FUN_EXT, r),
        decreases rest(old(self).data(), old(self).pos()), 1nat,
    {
        let num_free = self.read_be_u32()?;
        let pid = self._decode_pid_field()?;
        let module = self._decode_any_atom()?;
        let index = self._decode_int_field()?;
        let uniq = self._decode_int_field()?;
        let free_vars = self.decode_terms(num_free as u64)?;
        let t = Eterm::Fun { pid, module, index, uniq, free_vars };
        proof {
            lemma_fun_views(t);
        }
        Ok(t)
    }

    #[verifier::rlimit(60)]
    fn decode_new_fun(&mut self) -> (r: Result<Eterm, DecodeError>)
        requires
            old(self).wf(),
        ensures
            final(self).advanced_from(old(self)),
            Self::decoded_body(old(self), final(self), ErlTermTag::NEW_FUN_EXT, r),
        decreases rest(old(self).data(), old(self).pos()), 1nat,
    {
        let _size = self.read_be_u32()?;
        let arity = self.read_u8()?;
        let uniq = self.read_exact(16)?;
        let index = self.read_be_u32()?;
        let num_free = self.read_be_u32()?;
        let module = self._decode_any_atom()?;
        let old_index = self._decode_int_field()?;
        let old_uniq = self._decode_int_field()?;
        let pid = self._decode_pid_field()?;
        let free_vars = self.decode_terms(num_free as u64)?;
        let t = Eterm::NewFun { arity, uniq, index, module, old_index, old_uniq, pid, free_vars };
        proof {
            lemma_fun_views(t);
        }
        Ok(t)
    }

    fn decode_export(&mut self) -> (r: Result<Eterm, DecodeError>)
        requires
            old(self).wf(),
        ensures
            final(self).advanced_from(old(self)),
            Self::decoded_body(old(self), final(self), ErlTermTag::EXPORT_EXT, r),
    {
        let module = self._decode_any_atom()?;
        let function = self._decode_any_atom()?;
        let arity = self._decode_arity_field()?;
        Ok(Eterm::Export { module, function, arity })
    }

    fn decode_bit_binary(&mut self) -> (r: Result<Eterm, DecodeError>)
        requires
            old(self).wf(),
        ensures
            final(self).advanced_from(old(self)),
            Self::decoded_body(old(self), final(self), ErlTermTag::BIT_BINARY_EXT, r),
    {
        let len = self.read_be_u32()?;
        let bits = self.read_u8()?;
        let data = self.read_exact(len as usize)?;
        Ok(Eterm::BitBinary { bits, data })
    }

    /// Decodes one term: its tag, then its body. Fails with `UnknownTag`,
    /// having read that byte only, where the tag is not one of the format's.
    pub fn decode_term(&mut self) -> (r: Result<Eterm, DecodeError>)
        requires
            old(self).wf(),
        ensures
            final(self).advanced_from(old(self)),
            same_outcome(
                r,
                |t: Eterm| t@,
                final(self).pos() - old(self).pos(),
                parse_term(old(self).data(), old(self).pos(), old(self).floats()),
            ),
            avail(old(self).data(), old(self).pos(), 1) && tag_of(
                old(self).data()[old(self).pos()],
            ) is None ==> final(self).pos() == old(self).pos() + 1,
        decreases rest(old(self).data(), old(self).pos()), 3nat,
    {
        let tag = self._decode_tag()?;
        self.decode_concrete_term(tag)
    }

    #[verifier::rlimit(60)]
    fn decode_concrete_term(&mut self, tag: ErlTermTag) -> (r: Result<Eterm, DecodeError>)
        requires
            old(self).wf(),
            old(self).pos() > 0,
        ensures
            final(self).advanced_from(old(self)),
            Self::decoded_body(old(self), final(self), tag, r),
        decreases rest(old(self).data(), old(self).pos()), 2nat,
    {
        match tag {
            ErlTermTag::SMALL_INTEGER_EXT => {
                let n = self.read_u8()?;
                Ok(Eterm::SmallInteger(n))
            },
            ErlTermTag::INTEGER_EXT => {
                let n = self.read_be_u32()?;
                Ok(Eterm::Integer(n as i32))
            },
            ErlTermTag::FLOAT_EXT => self.decode_float(),
            ErlTermTag::ATOM_EXT | ErlTermTag::ATOM_UTF8_EXT => {
                let a = self.decode_atom()?;
                Ok(Eterm::Atom(a))
            },
            ErlTermTag::REFERENCE_EXT => self.decode_reference(),
            ErlTermTag::PORT_EXT => self.decode_port(),
            ErlTermTag::PID_EXT => {
                let p = self.decode_pid()?;
                Ok(Eterm::Pid(p))
            },
            ErlTermTag::SMALL_TUPLE_EXT => self.decode_small_tuple(),
            ErlTermTag::LARGE_TUPLE_EXT => self.decode_large_tuple(),
            ErlTermTag::MAP_EXT => self.decode_map(),
            ErlTermTag::NIL_EXT => Ok(Eterm::Nil),
            ErlTermTag::STRING_EXT => self.decode_string(),
            ErlTermTag::LIST_EXT => self.decode_list(),
            ErlTermTag::BINARY_EXT => self.decode_binary(),
            ErlTermTag::SMALL_BIG_EXT => self.decode_small_big(),
            ErlTermTag::LARGE_BIG_EXT => self.decode_large_big(),
            ErlTermTag::NEW_REFERENCE_EXT => self.decode_new_reference(),
            ErlTermTag::SMALL_ATOM_EXT | ErlTermTag::SMALL_ATOM_UTF8_EXT => {
                let a = self.decode_small_atom()?;
                Ok(Eterm::Atom(a))
            },
            ErlTermTag::FUN_EXT => self.decode_fun(),
            ErlTermTag::NEW_FUN_EXT => self.decode_new_fun(),
            ErlTermTag::EXPORT_EXT => self.decode_export(),
            ErlTermTag::BIT_BINARY_EXT => self.decode_bit_binary(),
            ErlTermTag::NEW_FLOAT_EXT => {
                let bits = self.read_be_u64()?;
                Ok(Eterm::Float(bits))
            },
        }
    }
}

} // verus!
