//! The encoder: writes terms into a byte buffer.
use vstd::prelude::*;
use vstd::utf8::encode_utf8;
use crate::bytes::{push_all, push_u16, push_u32, push_u64, u16_be, u32_be};
use crate::tag::ErlTermTag;
use crate::term::{
    lemma_fun_views, lemma_pair_views, lemma_seq_views, pair_views, views, BigNum, Eterm, Pid, Term,
};
use crate::wire::{
    atom_fits, enc_atom, enc_big, enc_int_field, enc_pairs, enc_pid_body, enc_term, enc_terms,
    encodable, new_fun_body, EncodeOptions,
};

verus! {

broadcast use vstd::std_specs::vec::axiom_vec_index_decreases;

/// `n`, or 2^32 where `n` is that large or larger.
pub open spec fn capped(n: int) -> int {
    if n < 0x1_0000_0000 {
        n
    } else {
        0x1_0000_0000
    }
}

fn cap_len(n: usize) -> (r: u64)
    ensures
        r == capped(n as int),
{
    if n as u64 >= 0x1_0000_0000 {
        0x1_0000_0000
    } else {
        n as u64
    }
}

fn add_len(a: u64, b: u64, Ghost(x): Ghost<int>, Ghost(y): Ghost<int>) -> (r: u64)
    requires
        0 <= x,
        0 <= y,
        a == capped(x),
        b == capped(y),
    ensures
        r == capped(x + y),
{
    if a + b >= 0x1_0000_0000 {
        0x1_0000_0000
    } else {
        a + b
    }
}

/// Writes terms into a byte buffer, choosing among the format's encodings
/// by its options.
pub struct Encoder {
    wrtr: Vec<u8>,
    use_utf8_atoms: bool,
    use_small_atoms: bool,
    fair_new_fun: bool,
}

impl Encoder {
    /// The bytes written so far.
    pub closed spec fn bytes(&self) -> Seq<u8> {
        self.wrtr@
    }

    pub closed spec fn options(&self) -> EncodeOptions {
        EncodeOptions {
            utf8_atoms: self.use_utf8_atoms,
            small_atoms: self.use_small_atoms,
            fair_new_fun: self.fair_new_fun,
        }
    }

    /// `self` holds what `old` held followed by `b`, under the same options.
    pub open spec fn appended(&self, old: &Self, b: Seq<u8>) -> bool {
        &&& self.bytes() == old.bytes() + b
        &&& self.options() == old.options()
    }

    /// An encoder that appends to `writer`.
    pub fn new(writer: Vec<u8>, utf8_atoms: bool, small_atoms: bool, fair_new_fun: bool) -> (r:
        Encoder)
        ensures
            r.bytes() == writer@,
            r.options() == (EncodeOptions { utf8_atoms, small_atoms, fair_new_fun }),
    {
        Encoder {
            wrtr: writer,
            use_utf8_atoms: utf8_atoms,
            use_small_atoms: small_atoms,
            fair_new_fun: fair_new_fun,
        }
    }

    /// The bytes written, handed back.
    pub fn into_inner(self) -> (r: Vec<u8>)
        ensures
            r@ == self.bytes(),
    {
        self.wrtr
    }

    /// The bytes written so far.
    pub fn get_ref(&self) -> (r: &Vec<u8>)
        ensures
            r@ == self.bytes(),
    {
        &self.wrtr
    }

    /// Writes the format's version byte, 131.
    pub fn write_prelude(&mut self)
        ensures
            final(self).appended(old(self), seq![131u8]),
    {
        self.wrtr.push(131);
        assert(self.wrtr@ =~= old(self).wrtr@ + seq![131u8]);
    }

    fn _encode_tag(&mut self, tag: ErlTermTag)
        ensures
            final(self).appended(old(self), seq![tag.byte()]),
    {
        self.wrtr.push(tag.to_u8());
        assert(self.wrtr@ =~= old(self).wrtr@ + seq![tag.byte()]);
    }

    fn _encode_str(&mut self, s: &str)
        ensures
            final(self).appended(old(self), encode_utf8(s@)),
    {
        push_all(&mut self.wrtr, s.as_bytes());
    }

    /// An atom body with a 16-bit length.
    fn encode_atom(&mut self, atom: &String)
        requires
            atom_fits(atom@),
        ensures
            final(self).appended(old(self), u16_be(encode_utf8(atom@).len() as u16) + encode_utf8(atom@)),
    {
        let s = atom.as_str();
        push_u16(&mut self.wrtr, s.len() as u16);
        self._encode_str(s);
        assert(self.wrtr@ =~= old(self).wrtr@ + (u16_be(encode_utf8(atom@).len() as u16) + encode_utf8(atom@)));
    }

    /// An atom body with an 8-bit length.
    fn encode_small_atom(&mut self, atom: &String)
        requires
            encode_utf8(atom@).len() <= 255,
        ensures
            final(self).appended(old(self), seq![encode_utf8(atom@).len() as u8] + encode_utf8(atom@)),
    {
        let s = atom.as_str();
        self.wrtr.push(s.len() as u8);
        self._encode_str(s);
        assert(self.wrtr@ =~= old(self).wrtr@ + (seq![encode_utf8(atom@).len() as u8] + encode_utf8(atom@)));
    }

    /// An atom term: tag and body.
    fn encode_atom_term(&mut self, atom: &String)
        requires
            atom_fits(atom@),
        ensures
            final(self).appended(old(self), enc_atom(atom@, old(self).options())),
    {
        let use_utf8 = self.use_utf8_atoms;
        let use_small = self.use_small_atoms;
        if atom.as_str().len() <= 255 && use_small {
            self._encode_tag(
                if use_utf8 {
                    ErlTermTag::SMALL_ATOM_UTF8_EXT
                } else {
                    ErlTermTag::SMALL_ATOM_EXT
                },
            );
            self.encode_small_atom(atom);
        } else {
            self._encode_tag(
                if use_utf8 {
                    ErlTermTag::ATOM_UTF8_EXT
                } else {
                    ErlTermTag::ATOM_EXT
                },
            );
            self.encode_atom(atom);
        }
        assert(self.wrtr@ =~= old(self).wrtr@ + enc_atom(atom@, old(self).options()));
    }

    fn encode_pid(&mut self, pid: &Pid)
        requires
            atom_fits(pid.node@),
        ensures
            final(self).appended(old(self), enc_pid_body(pid@, old(self).options())),
    {
        self.encode_atom_term(&pid.node);
        push_u32(&mut self.wrtr, pid.id);
        push_u32(&mut self.wrtr, pid.serial);
        self.wrtr.push(pid.creation);
        assert(self.wrtr@ =~= old(self).wrtr@ + enc_pid_body(pid@, old(self).options()));
    }

    /// A 32-bit field as a small integer term where it fits, else as a
    /// full-width integer term.
    fn encode_int_field(&mut self, v: u32)
        ensures
            final(self).appended(old(self), enc_int_field(v)),
    {
        if v <= 255 {
            self._encode_tag(ErlTermTag::SMALL_INTEGER_EXT);
            self.wrtr.push(v as u8);
        } else {
            self._encode_tag(ErlTermTag::INTEGER_EXT);
            push_u32(&mut self.wrtr, v);
        }
        assert(self.wrtr@ =~= old(self).wrtr@ + enc_int_field(v));
    }

    /// Writes the magnitude that goes with a sign byte: 0 for a
    /// non-negative number, 1 for a negative one.
    fn _encode_big(&mut self, num: &BigNum, bytes: &Vec<u8>)
        ensures
            final(self).appended(old(self), seq![if num.negative { 1u8 } else { 0u8 }] + bytes@),
    {
        let sign: u8 = if num.negative {
            1
        } else {
            0
        };
        self.wrtr.push(sign);
        push_all(&mut self.wrtr, bytes.as_slice());
        assert(self.wrtr@ =~= old(self).wrtr@ + (seq![sign] + bytes@));
    }

    fn encode_big_num(&mut self, num: &BigNum)
        requires
            encodable(Term::BigNum(num.negative, num.digits@), old(self).options()),
        ensures
            final(self).appended(old(self), enc_big(num.negative, num.digits@)),
    {
        let num_bytes = num.magnitude_bytes();
        if num_bytes.len() < 255 {
            self._encode_tag(ErlTermTag::SMALL_BIG_EXT);
            self.wrtr.push(num_bytes.len() as u8);
            self._encode_big(num, &num_bytes);
        } else {
            self._encode_tag(ErlTermTag::LARGE_BIG_EXT);
            push_u32(&mut self.wrtr, num_bytes.len() as u32);
            self._encode_big(num, &num_bytes);
        }
        assert(self.wrtr@ =~= old(self).wrtr@ + enc_big(num.negative, num.digits@));
    }

    /// Terms one after another.
    fn encode_terms(&mut self, terms: &Vec<Eterm>)
        requires
            forall|i: int| 0 <= i < terms@.len() ==> encodable(#[trigger] terms@[i]@, old(self).options()),
        ensures
            final(self).appended(old(self), enc_terms(views(terms@), old(self).options())),
        decreases terms, 0nat,
    {
        let ghost o = self.options();
        let ghost start = self.bytes();
        let mut i: usize = 0;
        while i < terms.len()
            invariant
                0 <= i <= terms@.len(),
                self.options() == o,
                old(self).options() == o,
                old(self).bytes() == start,
                forall|j: int| 0 <= j < terms@.len() ==> encodable(#[trigger] terms@[j]@, o),
                self.bytes() == start + enc_terms(views(terms@).subrange(0, i as int), o),
            decreases terms@.len() - i,
        {
            self.write_term(&terms[i]);
            proof {
                let vs = views(terms@);
                let next = vs.subrange(0, i + 1);
                assert(next.subrange(0, i as int) =~= vs.subrange(0, i as int));
                assert(next[i as int] == terms@[i as int]@);
            }
            i = i + 1;
        }
        assert(views(terms@).subrange(0, i as int) =~= views(terms@));
    }

    fn encode_new_reference(&mut self, node: &String, id: &Vec<u8>, creation: u8)
        requires
            atom_fits(node@),
            id@.len() / 4 <= 0xFFFF,
        ensures
            final(self).appended(
                old(self),
                u16_be((id@.len() / 4) as u16) + enc_atom(node@, old(self).options()) + seq![creation]
                    + id@,
            ),
    {
        let len = id.len() / 4;
        push_u16(&mut self.wrtr, len as u16);
        self.encode_atom_term(node);
        self.wrtr.push(creation);
        push_all(&mut self.wrtr, id.as_slice());
        assert(self.wrtr@ =~= old(self).wrtr@ + (u16_be((id@.len() / 4) as u16) + enc_atom(
            node@,
            old(self).options(),
        ) + seq![creation] + id@));
    }

    fn encode_port(&mut self, node: &String, id: u32, creation: u8)
        requires
            atom_fits(node@),
        ensures
            final(self).appended(
                old(self),
                enc_atom(node@, old(self).options()) + u32_be(id) + seq![creation],
            ),
    {
        self.encode_atom_term(node);
        push_u32(&mut self.wrtr, id);
        self.wrtr.push(creation);
        assert(self.wrtr@ =~= old(self).wrtr@ + (enc_atom(node@, old(self).options()) + u32_be(id)
            + seq![creation]));
    }

    /// Key-value pairs, each key before its value.
    fn encode_map(&mut self, map: &Vec<(Eterm, Eterm)>)
        requires
            map@.len() <= 0xFFFF_FFFF,
            forall|i: int|
                0 <= i < map@.len() ==> encodable(#[trigger] map@[i].0@, old(self).options())
                    && encodable(map@[i].1@, old(self).options()),
        ensures
            final(self).appended(
                old(self),
                u32_be(map@.len() as u32) + enc_pairs(pair_views(map@), old(self).options()),
            ),
        decreases map, 0nat,
    {
        let ghost o = self.options();
        let ghost start = self.bytes();
        push_u32(&mut self.wrtr, map.len() as u32);
        assert(pair_views(map@).subrange(0, 0) =~= Seq::<(Term, Term)>::empty());
        assert(self.bytes() =~= start + u32_be(map@.len() as u32) + enc_pairs(
            pair_views(map@).subrange(0, 0),
            o,
        ));
        let mut i: usize = 0;
        while i < map.len()
            invariant
                0 <= i <= map@.len(),
                self.options() == o,
                old(self).options() == o,
                old(self).bytes() == start,
                forall|j: int|
                    0 <= j < map@.len() ==> encodable(#[trigger] map@[j].0@, o) && encodable(
                        map@[j].1@,
                        o,
                    ),
                self.bytes() == start + u32_be(map@.len() as u32) + enc_pairs(
                    pair_views(map@).subrange(0, i as int),
                    o,
                ),
            decreases map@.len() - i,
        {
            self.write_term(&map[i].0);
            self.write_term(&map[i].1);
            proof {
                let vs = pair_views(map@);
                let next = vs.subrange(0, i + 1);
                assert(next.subrange(0, i as int) =~= vs.subrange(0, i as int));
                assert(next[i as int] == (map@[i as int].0@, map@[i as int].1@));
            }
            i = i + 1;
        }
        assert(pair_views(map@).subrange(0, i as int) =~= pair_views(map@));
        assert(self.bytes() =~= old(self).bytes() + (u32_be(map@.len() as u32) + enc_pairs(
            pair_views(map@),
            o,
        )));
    }

    fn encode_fun(
        &mut self,
        pid: &Pid,
        module: &String,
        index: u32,
        uniq: u32,
        free_vars: &Vec<Eterm>,
    )
        requires
            atom_fits(pid.node@),
            atom_fits(module@),
            free_vars@.len() <= 0xFFFF_FFFF,
            forall|i: int|
                0 <= i < free_vars@.len() ==> encodable(#[trigger] free_vars@[i]@, old(self).options()),
        ensures
            final(self).appended(
                old(self),
                u32_be(free_vars@.len() as u32) + seq![103u8] + enc_pid_body(pid@, old(self).options())
                    + enc_atom(module@, old(self).options()) + enc_int_field(index) + enc_int_field(
                    uniq,
                ) + enc_terms(views(free_vars@), old(self).options()),
            ),
        decreases free_vars, 1nat,
    {
        let ghost o = self.options();
        push_u32(&mut self.wrtr, free_vars.len() as u32);
        self._encode_tag(ErlTermTag::PID_EXT);
        self.encode_pid(pid);
        self.encode_atom_term(module);
        self.encode_int_field(index);
        self.encode_int_field(uniq);
        self.encode_terms(free_vars);
        assert(self.wrtr@ =~= old(self).wrtr@ + (u32_be(free_vars@.len() as u32) + seq![103u8]
            + enc_pid_body(pid@, o) + enc_atom(module@, o) + enc_int_field(index) + enc_int_field(
            uniq,
        ) + enc_terms(views(free_vars@), o)));
    }

    /// A `NewFun` body: everything after the size field.
    #[verifier::rlimit(60)]
    fn _encode_new_fun(
        &mut self,
        arity: u8,
        uniq: &Vec<u8>,
        index: u32,
        module: &String,
        old_index: u32,
        old_uniq: u32,
        pid: &Pid,
        free_vars: &Vec<Eterm>,
    )
        requires
            atom_fits(pid.node@),
            atom_fits(module@),
            free_vars@.len() <= 0xFFFF_FFFF,
            forall|i: int|
                0 <= i < free_vars@.len() ==> encodable(#[trigger] free_vars@[i]@, old(self).options()),
        ensures
            final(self).appended(
                old(self),
                new_fun_body(
                    arity,
                    uniq@,
                    index,
                    free_vars@.len(),
                    module@,
                    old_index,
                    old_uniq,
                    pid@,
                    old(self).options(),
                ) + enc_terms(views(free_vars@), old(self).options()),
            ),
        decreases free_vars, 1nat,
    {
        let ghost o = self.options();
        self.wrtr.push(arity);
        push_all(&mut self.wrtr, uniq.as_slice());
        push_u32(&mut self.wrtr, index);
        push_u32(&mut self.wrtr, free_vars.len() as u32);
        self.encode_atom_term(module);
        self.encode_int_field(old_index);
        self.encode_int_field(old_uniq);
        self._encode_tag(ErlTermTag::PID_EXT);
        self.encode_pid(pid);
        self.encode_terms(free_vars);
        assert(self.wrtr@ =~= old(self).wrtr@ + (new_fun_body(
            arity,
            uniq@,
            index,
            free_vars@.len(),
            module@,
            old_index,
            old_uniq,
            pid@,
            o,
        ) + enc_terms(views(free_vars@), o)));
    }

    /// A `NewFun` after its tag. With the fair option the body is written to
    /// a scratch encoder first, so that its true size can go in front of
    /// it; otherwise the size field is zero.
    fn encode_new_fun(
        &mut self,
        arity: u8,
        uniq: &Vec<u8>,
        index: u32,
        module: &String,
        old_index: u32,
        old_uniq: u32,
        pid: &Pid,
        free_vars: &Vec<Eterm>,
    )
        requires
            atom_fits(pid.node@),
            atom_fits(module@),
            free_vars@.len() <= 0xFFFF_FFFF,
            forall|i: int|
                0 <= i < free_vars@.len() ==> encodable(#[trigger] free_vars@[i]@, old(self).options()),
            old(self).options().fair_new_fun ==> 5 + new_fun_body(
                arity,
                uniq@,
                index,
                free_vars@.len(),
                module@,
                old_index,
                old_uniq,
                pid@,
                old(self).options(),
            ).len() + enc_terms(views(free_vars@), old(self).options()).len() <= 0xFFFF_FFFF,
        ensures
            ({
                let body = new_fun_body(
                    arity,
                    uniq@,
                    index,
                    free_vars@.len(),
                    module@,
                    old_index,
                    old_uniq,
                    pid@,
                    old(self).options(),
                ) + enc_terms(views(free_vars@), old(self).options());
                final(self).appended(
                    old(self),
                    u32_be(
                        if old(self).options().fair_new_fun {
                            (4 + body.len()) as u32
                        } else {
                            0u32
                        },
                    ) + body,
                )
            }),
        decreases free_vars, 2nat,
    {
        let ghost o = self.options();
        if self.fair_new_fun {
            let mut temp = Encoder::new(
                Vec::new(),
                self.use_utf8_atoms,
                self.use_small_atoms,
                self.fair_new_fun,
            );
            temp._encode_new_fun(arity, uniq, index, module, old_index, old_uniq, pid, free_vars);
            let size = temp.wrtr.len();
            push_u32(&mut self.wrtr, 4 + size as u32);
            push_all(&mut self.wrtr, temp.wrtr.as_slice());
        } else {
            push_u32(&mut self.wrtr, 0);
            self._encode_new_fun(arity, uniq, index, module, old_index, old_uniq, pid, free_vars);
        }
        proof {
            let body = new_fun_body(
                arity,
                uniq@,
                index,
                free_vars@.len(),
                module@,
                old_index,
                old_uniq,
                pid@,
                o,
            ) + enc_terms(views(free_vars@), o);
            assert(self.wrtr@ =~= old(self).wrtr@ + (u32_be(
                if o.fair_new_fun {
                    (4 + body.len()) as u32
                } else {
                    0u32
                },
            ) + body));
        }
    }

    fn encode_export(&mut self, module: &String, function: &String, arity: u8)
        requires
            atom_fits(module@),
            atom_fits(function@),
        ensures
            final(self).appended(
                old(self),
                enc_atom(module@, old(self).options()) + enc_atom(function@, old(self).options())
                    + seq![97u8, arity],
            ),
    {
        self.encode_atom_term(module);
        self.encode_atom_term(function);
        self._encode_tag(ErlTermTag::SMALL_INTEGER_EXT);
        self.wrtr.push(arity);
        assert(self.wrtr@ =~= old(self).wrtr@ + (enc_atom(module@, old(self).options()) + enc_atom(
            function@,
            old(self).options(),
        ) + seq![97u8, arity]));
    }

    #[verifier::rlimit(60)]
    fn encode_tuple_term(&mut self, term: &Eterm)
        requires
            term is Tuple,
            encodable(term@, old(self).options()),
        ensures
            final(self).appended(old(self), enc_term(term@, old(self).options())),
        decreases term, 2nat,
    {
        let ghost o = self.options();
        match term {
            Eterm::Tuple(tuple) => {
                proof {
                    lemma_seq_views(*tuple);
                    assert forall|i: int| 0 <= i < tuple@.len() implies encodable(
                        #[trigger] tuple@[i]@,
                        o,
                    ) by {
                        assert(views(tuple@)[i] == tuple@[i]@);
                    }
                }
                if tuple.len() <= 255 {
                    self._encode_tag(ErlTermTag::SMALL_TUPLE_EXT);
                    self.wrtr.push(tuple.len() as u8);
                    self.encode_terms(tuple);
                } else {
                    self._encode_tag(ErlTermTag::LARGE_TUPLE_EXT);
                    push_u32(&mut self.wrtr, tuple.len() as u32);
                    self.encode_terms(tuple);
                }
                assert(self.wrtr@ =~= old(self).wrtr@ + enc_term(term@, o));
            },
            _ => {},
        }
    }

    #[verifier::rlimit(60)]
    fn encode_map_term(&mut self, term: &Eterm)
        requires
            term is MapPairs,
            encodable(term@, old(self).options()),
        ensures
            final(self).appended(old(self), enc_term(term@, old(self).options())),
        decreases term, 2nat,
    {
        let ghost o = self.options();
        match term {
            Eterm::MapPairs(map) => {
                proof {
                    lemma_pair_views(*map);
                    assert forall|i: int| 0 <= i < map@.len() implies encodable(
                        #[trigger] map@[i].0@,
                        o,
                    ) && encodable(map@[i].1@, o) by {
                        assert(pair_views(map@)[i].0 == map@[i].0@);
                        assert(pair_views(map@)[i].1 == map@[i].1@);
                    }
                }
                self._encode_tag(ErlTermTag::MAP_EXT);
                self.encode_map(map);
                assert(self.wrtr@ =~= old(self).wrtr@ + enc_term(term@, o));
            },
            _ => {},
        }
    }

    #[verifier::rlimit(60)]
    fn encode_list_term(&mut self, term: &Eterm)
        requires
            term is List,
            encodable(term@, old(self).options()),
        ensures
            final(self).appended(old(self), enc_term(term@, old(self).options())),
        decreases term, 2nat,
    {
        let ghost o = self.options();
        match term {
            Eterm::List(list) => {
                proof {
                    lemma_seq_views(*list);
                    assert forall|i: int| 0 <= i < list@.len() implies encodable(
                        #[trigger] list@[i]@,
                        o,
                    ) by {
                        assert(views(list@)[i] == list@[i]@);
                    }
                }
                self._encode_tag(ErlTermTag::LIST_EXT);
                push_u32(&mut self.wrtr, (list.len() - 1) as u32);
                self.encode_terms(list);
                assert(self.wrtr@ =~= old(self).wrtr@ + enc_term(term@, o));
            },
            _ => {},
        }
    }

    #[verifier::rlimit(60)]
    fn encode_fun_term(&mut self, term: &Eterm)
        requires
            term is Fun,
            encodable(term@, old(self).options()),
        ensures
            final(self).appended(old(self), enc_term(term@, old(self).options())),
        decreases term, 2nat,
    {
        let ghost o = self.options();
        match term {
            Eterm::Fun { pid, module, index, uniq, free_vars } => {
                proof {
                    lemma_fun_views(*term);
                    assert forall|i: int| 0 <= i < free_vars@.len() implies encodable(
                        #[trigger] free_vars@[i]@,
                        o,
                    ) by {
                        assert(views(free_vars@)[i] == free_vars@[i]@);
                    }
                }
                self._encode_tag(ErlTermTag::FUN_EXT);
                self.encode_fun(pid, module, *index, *uniq, free_vars);
                assert(self.wrtr@ =~= old(self).wrtr@ + enc_term(term@, o));
            },
            _ => {},
        }
    }

    #[verifier::rlimit(60)]
    fn encode_new_fun_term(&mut self, term: &Eterm)
        requires
            term is NewFun,
            encodable(term@, old(self).options()),
        ensures
            final(self).appended(old(self), enc_term(term@, old(self).options())),
        decreases term, 2nat,
    {
        let ghost o = self.options();
        match term {
            Eterm::NewFun { arity, uniq, index, module, old_index, old_uniq, pid, free_vars } => {
                proof {
                    lemma_fun_views(*term);
                    assert forall|i: int| 0 <= i < free_vars@.len() implies encodable(
                        #[trigger] free_vars@[i]@,
                        o,
                    ) by {
                        assert(views(free_vars@)[i] == free_vars@[i]@);
                    }
                }
                self._encode_tag(ErlTermTag::NEW_FUN_EXT);
                self.encode_new_fun(
                    *arity,
                    uniq,
                    *index,
                    module,
                    *old_index,
                    *old_uniq,
                    pid,
                    free_vars,
                );
                assert(self.wrtr@ =~= old(self).wrtr@ + enc_term(term@, o));
            },
            _ => {},
        }
    }

    fn write_term(&mut self, term: &Eterm)
        requires
            encodable(term@, old(self).options()),
        ensures
            final(self).appended(old(self), enc_term(term@, old(self).options())),
        decreases term, 3nat,
    {
        let ghost o = self.options();
        match term {
            Eterm::SmallInteger(num) => {
                self._encode_tag(ErlTermTag::SMALL_INTEGER_EXT);
                self.wrtr.push(*num);
                assert(self.wrtr@ =~= old(self).wrtr@ + enc_term(term@, o));
            },
            Eterm::Integer(num) => {
                self._encode_tag(ErlTermTag::INTEGER_EXT);
                push_u32(&mut self.wrtr, *num as u32);
                assert(self.wrtr@ =~= old(self).wrtr@ + enc_term(term@, o));
            },
            Eterm::Float(bits) => {
                self._encode_tag(ErlTermTag::NEW_FLOAT_EXT);
                push_u64(&mut self.wrtr, *bits);
                assert(self.wrtr@ =~= old(self).wrtr@ + enc_term(term@, o));
            },
            Eterm::Atom(atom) => {
                self.encode_atom_term(atom);
                assert(self.wrtr@ =~= old(self).wrtr@ + enc_term(term@, o));
            },
            Eterm::Reference { node, id, creation } => {
                self._encode_tag(ErlTermTag::NEW_REFERENCE_EXT);
                self.encode_new_reference(node, id, *creation);
                assert(self.wrtr@ =~= old(self).wrtr@ + enc_term(term@, o));
            },
            Eterm::Port { node, id, creation } => {
                self._encode_tag(ErlTermTag::PORT_EXT);
                self.encode_port(node, *id, *creation);
                assert(self.wrtr@ =~= old(self).wrtr@ + enc_term(term@, o));
            },
            Eterm::Pid(pid) => {
                self._encode_tag(ErlTermTag::PID_EXT);
                self.encode_pid(pid);
                assert(self.wrtr@ =~= old(self).wrtr@ + enc_term(term@, o));
            },
            Eterm::Tuple(_) => {
                self.encode_tuple_term(term);
            },
            Eterm::MapPairs(_) => {
                self.encode_map_term(term);
            },
            Eterm::Nil => {
                self._encode_tag(ErlTermTag::NIL_EXT);
                assert(self.wrtr@ =~= old(self).wrtr@ + enc_term(term@, o));
            },
            Eterm::String(s) => {
                self._encode_tag(ErlTermTag::STRING_EXT);
                push_u16(&mut self.wrtr, s.len() as u16);
                push_all(&mut self.wrtr, s.as_slice());
                assert(self.wrtr@ =~= old(self).wrtr@ + enc_term(term@, o));
            },
            Eterm::List(_) => {
                self.encode_list_term(term);
            },
            Eterm::Binary(bin) => {
                self._encode_tag(ErlTermTag::BINARY_EXT);
                push_u32(&mut self.wrtr, bin.len() as u32);
                push_all(&mut self.wrtr, bin.as_slice());
                assert(self.wrtr@ =~= old(self).wrtr@ + enc_term(term@, o));
            },
            Eterm::BigNum(num) => {
                self.encode_big_num(num);
                assert(self.wrtr@ =~= old(self).wrtr@ + enc_term(term@, o));
            },
            Eterm::Fun { .. } => {
                self.encode_fun_term(term);
            },
            Eterm::NewFun { .. } => {
                self.encode_new_fun_term(term);
            },
            Eterm::Export { module, function, arity } => {
                self._encode_tag(ErlTermTag::EXPORT_EXT);
                self.encode_export(module, function, *arity);
                assert(self.wrtr@ =~= old(self).wrtr@ + enc_term(term@, o));
            },
            Eterm::BitBinary { bits, data } => {
                self._encode_tag(ErlTermTag::BIT_BINARY_EXT);
                push_u32(&mut self.wrtr, data.len() as u32);
                self.wrtr.push(*bits);
                push_all(&mut self.wrtr, data.as_slice());
                assert(self.wrtr@ =~= old(self).wrtr@ + enc_term(term@, o));
            },
        }
    }

    /// An atom term's length under this encoder's options.
    fn atom_len(&self, atom: &String) -> (r: u64)
        ensures
            r == capped(enc_atom(atom@, self.options()).len() as int),
    {
        let b = cap_len(atom.as_str().as_bytes().len());
        if b <= 255 && self.use_small_atoms {
            add_len(2, b, Ghost(2), Ghost(encode_utf8(atom@).len() as int))
        } else {
            add_len(3, b, Ghost(3), Ghost(encode_utf8(atom@).len() as int))
        }
    }

    /// Terms one after another: their total length.
    fn terms_len(&self, terms: &Vec<Eterm>) -> (r: u64)
        ensures
            r == capped(enc_terms(views(terms@), self.options()).len() as int),
        decreases terms, 0nat,
    {
        let ghost o = self.options();
        let mut acc: u64 = 0;
        let mut i: usize = 0;
        while i < terms.len()
            invariant
                0 <= i <= terms@.len(),
                self.options() == o,
                acc == capped(enc_terms(views(terms@).subrange(0, i as int), o).len() as int),
            decreases terms@.len() - i,
        {
            let n = self.encoded_len(&terms[i]);
            proof {
                let vs = views(terms@);
                let next = vs.subrange(0, i + 1);
                assert(next.subrange(0, i as int) =~= vs.subrange(0, i as int));
                assert(next[i as int] == terms@[i as int]@);
            }
            acc = add_len(
                acc,
                n,
                Ghost(enc_terms(views(terms@).subrange(0, i as int), o).len() as int),
                Ghost(enc_term(terms@[i as int]@, o).len() as int),
            );
            i = i + 1;
        }
        assert(views(terms@).subrange(0, i as int) =~= views(terms@));
        acc
    }

    /// Key-value pairs one after another: their total length.
    fn pairs_len(&self, map: &Vec<(Eterm, Eterm)>) -> (r: u64)
        ensures
            r == capped(enc_pairs(pair_views(map@), self.options()).len() as int),
        decreases map, 0nat,
    {
        let ghost o = self.options();
        let mut acc: u64 = 0;
        let mut i: usize = 0;
        while i < map.len()
            invariant
                0 <= i <= map@.len(),
                self.options() == o,
                acc == capped(enc_pairs(pair_views(map@).subrange(0, i as int), o).len() as int),
            decreases map@.len() - i,
        {
            let k = self.encoded_len(&map[i].0);
            let v = self.encoded_len(&map[i].1);
            proof {
                let vs = pair_views(map@);
                let next = vs.subrange(0, i + 1);
                assert(next.subrange(0, i as int) =~= vs.subrange(0, i as int));
                assert(next[i as int] == (map@[i as int].0@, map@[i as int].1@));
            }
            let ghost x = enc_pairs(pair_views(map@).subrange(0, i as int), o).len() as int;
            let ghost y = enc_term(map@[i as int].0@, o).len() as int;
            let ghost z = enc_term(map@[i as int].1@, o).len() as int;
            acc = add_len(acc, k, Ghost(x), Ghost(y));
            acc = add_len(acc, v, Ghost(x + y), Ghost(z));
            i = i + 1;
        }
        assert(pair_views(map@).subrange(0, i as int) =~= pair_views(map@));
        acc
    }

    /// The length of a term's encoding under this encoder's options, or
    /// 2^32 where it is that long or longer.
    #[verifier::rlimit(100)]
    pub fn encoded_len(&self, term: &Eterm) -> (r: u64)
        ensures
            r == capped(enc_term(term@, self.options()).len() as int),
        decreases term, 1nat,
    {
        let ghost o = self.options();
        match term {
            Eterm::SmallInteger(_) => 2,
            Eterm::Integer(_) => 5,
            Eterm::Float(_) => 9,
            Eterm::Atom(atom) => self.atom_len(atom),
            Eterm::Reference { node, id, .. } => {
                let a = self.atom_len(node);
                let ghost x = enc_atom(node@, o).len() as int;
                let n = add_len(a, 4, Ghost(x), Ghost(4));
                add_len(n, cap_len(id.len()), Ghost(x + 4), Ghost(id@.len() as int))
            },
            Eterm::Port { node, .. } => {
                let a = self.atom_len(node);
                add_len(a, 6, Ghost(enc_atom(node@, o).len() as int), Ghost(6))
            },
            Eterm::Pid(pid) => {
                let a = self.atom_len(&pid.node);
                add_len(a, 10, Ghost(enc_atom(pid.node@, o).len() as int), Ghost(10))
            },
            Eterm::Tuple(tuple) => {
                proof {
                    lemma_seq_views(*tuple);
                }
                let n = self.terms_len(tuple);
                let ghost x = enc_terms(views(tuple@), o).len() as int;
                if tuple.len() <= 255 {
                    add_len(2, n, Ghost(2), Ghost(x))
                } else {
                    add_len(5, n, Ghost(5), Ghost(x))
                }
            },
            Eterm::MapPairs(map) => {
                proof {
                    lemma_pair_views(*map);
                }
                let n = self.pairs_len(map);
                add_len(5, n, Ghost(5), Ghost(enc_pairs(pair_views(map@), o).len() as int))
            },
            Eterm::Nil => 1,
            Eterm::String(s) => add_len(3, cap_len(s.len()), Ghost(3), Ghost(s@.len() as int)),
            Eterm::List(list) => {
                proof {
                    lemma_seq_views(*list);
                }
                let n = self.terms_len(list);
                add_len(5, n, Ghost(5), Ghost(enc_terms(views(list@), o).len() as int))
            },
            Eterm::Binary(b) => add_len(5, cap_len(b.len()), Ghost(5), Ghost(b@.len() as int)),
            Eterm::BigNum(num) => {
                let m = num.magnitude_bytes();
                let c = cap_len(m.len());
                if m.len() < 255 {
                    add_len(3, c, Ghost(3), Ghost(m@.len() as int))
                } else {
                    add_len(6, c, Ghost(6), Ghost(m@.len() as int))
                }
            },
            Eterm::Fun { pid, module, index, uniq, free_vars } => {
                proof {
                    lemma_fun_views(*term);
                }
                let ghost x1 = enc_atom(pid.node@, o).len() as int;
                let ghost x2 = enc_atom(module@, o).len() as int;
                let ghost x3 = (enc_int_field(*index).len() + enc_int_field(*uniq).len()) as int;
                let ghost x4 = enc_terms(views(free_vars@), o).len() as int;
                let f: u64 = (if *index <= 255 { 2 } else { 5 }) + (if *uniq <= 255 { 2 } else { 5 });
                let n = add_len(15, self.atom_len(&pid.node), Ghost(15), Ghost(x1));
                let n = add_len(n, self.atom_len(module), Ghost(15 + x1), Ghost(x2));
                let n = add_len(n, f, Ghost(15 + x1 + x2), Ghost(x3));
                add_len(n, self.terms_len(free_vars), Ghost(15 + x1 + x2 + x3), Ghost(x4))
            },
            Eterm::NewFun { uniq, module, old_index, old_uniq, pid, free_vars, .. } => {
                proof {
                    lemma_fun_views(*term);
                }
                let ghost x0 = uniq@.len() as int;
                let ghost x1 = enc_atom(module@, o).len() as int;
                let ghost x2 = (enc_int_field(*old_index).len() + enc_int_field(*old_uniq).len()) as int;
                let ghost x3 = enc_atom(pid.node@, o).len() as int;
                let ghost x4 = enc_terms(views(free_vars@), o).len() as int;
                let f: u64 = (if *old_index <= 255 { 2 } else { 5 }) + (if *old_uniq <= 255 {
                    2
                } else {
                    5
                });
                let n = add_len(24, cap_len(uniq.len()), Ghost(24), Ghost(x0));
                let n = add_len(n, self.atom_len(module), Ghost(24 + x0), Ghost(x1));
                let n = add_len(n, f, Ghost(24 + x0 + x1), Ghost(x2));
                let n = add_len(n, self.atom_len(&pid.node), Ghost(24 + x0 + x1 + x2), Ghost(x3));
                add_len(
                    n,
                    self.terms_len(free_vars),
                    Ghost(24 + x0 + x1 + x2 + x3),
                    Ghost(x4),
                )
            },
            Eterm::Export { module, function, .. } => {
                let ghost x1 = enc_atom(module@, o).len() as int;
                let ghost x2 = enc_atom(function@, o).len() as int;
                let n = add_len(3, self.atom_len(module), Ghost(3), Ghost(x1));
                add_len(n, self.atom_len(function), Ghost(3 + x1), Ghost(x2))
            },
            Eterm::BitBinary { data, .. } => add_len(
                6,
                cap_len(data.len()),
                Ghost(6),
                Ghost(data@.len() as int),
            ),
        }
    }

    fn atom_fits_here(atom: &String) -> (r: bool)
        ensures
            r == atom_fits(atom@),
    {
        atom.as_str().as_bytes().len() <= 0xFFFF
    }

    /// Whether every term of a sequence is encodable.
    fn all_encodable(&self, terms: &Vec<Eterm>) -> (r: bool)
        ensures
            r == (forall|i: int|
                0 <= i < views(terms@).len() ==> encodable(#[trigger] views(terms@)[i], self.options())),
        decreases terms, 0nat,
    {
        let ghost o = self.options();
        let ghost vs = views(terms@);
        let mut i: usize = 0;
        while i < terms.len()
            invariant
                0 <= i <= terms@.len(),
                self.options() == o,
                vs == views(terms@),
                forall|j: int| 0 <= j < i ==> encodable(#[trigger] vs[j], o),
            decreases terms@.len() - i,
        {
            let ok = self.can_encode(&terms[i]);
            assert(vs[i as int] == terms@[i as int]@);
            if !ok {
                return false;
            }
            i = i + 1;
        }
        true
    }

    /// Whether every key and value of a sequence of pairs is encodable.
    fn all_pairs_encodable(&self, map: &Vec<(Eterm, Eterm)>) -> (r: bool)
        ensures
            r == (forall|i: int|
                0 <= i < pair_views(map@).len() ==> encodable(
                    #[trigger] pair_views(map@)[i].0,
                    self.options(),
                ) && encodable(pair_views(map@)[i].1, self.options())),
        decreases map, 0nat,
    {
        let ghost o = self.options();
        let ghost vs = pair_views(map@);
        let mut i: usize = 0;
        while i < map.len()
            invariant
                0 <= i <= map@.len(),
                self.options() == o,
                vs == pair_views(map@),
                forall|j: int| 0 <= j < i ==> encodable(#[trigger] vs[j].0, o) && encodable(vs[j].1, o),
            decreases map@.len() - i,
        {
            let k = self.can_encode(&map[i].0);
            let v = self.can_encode(&map[i].1);
            assert(vs[i as int].0 == map@[i as int].0@ && vs[i as int].1 == map@[i as int].1@);
            if !(k && v) {
                return false;
            }
            i = i + 1;
        }
        true
    }

    /// Whether `encode_term` accepts a term under this encoder's options:
    /// every length and arity fits its wire field, a list holds its tail, a
    /// reference id is whole 32-bit words, a `NewFun` uniq is 16 bytes and,
    /// with the fair option, its size fits 32 bits, and big integers are in
    /// normal form.
    #[verifier::rlimit(100)]
    pub fn can_encode(&self, term: &Eterm) -> (r: bool)
        ensures
            r == encodable(term@, self.options()),
        decreases term, 1nat,
    {
        match term {
            Eterm::Atom(a) => Self::atom_fits_here(a),
            Eterm::Reference { node, id, .. } => Self::atom_fits_here(node) && id.len() % 4 == 0
                && id.len() / 4 <= 0xFFFF,
            Eterm::Port { node, .. } => Self::atom_fits_here(node),
            Eterm::Pid(pid) => Self::atom_fits_here(&pid.node),
            Eterm::Tuple(tuple) => {
                proof {
                    lemma_seq_views(*tuple);
                }
                tuple.len() as u64 <= 0xFFFF_FFFF && self.all_encodable(tuple)
            },
            Eterm::MapPairs(map) => {
                proof {
                    lemma_pair_views(*map);
                }
                map.len() as u64 <= 0xFFFF_FFFF && self.all_pairs_encodable(map)
            },
            Eterm::String(s) => s.len() <= 0xFFFF,
            Eterm::List(list) => {
                proof {
                    lemma_seq_views(*list);
                }
                1 <= list.len() && list.len() as u64 <= 0x1_0000_0000 && self.all_encodable(list)
            },
            Eterm::Binary(b) => b.len() as u64 <= 0xFFFF_FFFF,
            Eterm::BigNum(num) => {
                let n = num.digits.len();
                (n == 0 || num.digits[n - 1] != 0) && (n > 0 || !num.negative)
                    && num.magnitude_bytes().len() as u64 <= 0xFFFF_FFFF
            },
            Eterm::Fun { pid, module, free_vars, .. } => {
                proof {
                    lemma_fun_views(*term);
                }
                Self::atom_fits_here(&pid.node) && Self::atom_fits_here(module) && free_vars.len() as u64
                    <= 0xFFFF_FFFF && self.all_encodable(free_vars)
            },
            Eterm::NewFun { uniq, module, pid, free_vars, .. } => {
                proof {
                    lemma_fun_views(*term);
                }
                uniq.len() == 16 && Self::atom_fits_here(module) && Self::atom_fits_here(&pid.node)
                    && free_vars.len() as u64 <= 0xFFFF_FFFF && self.all_encodable(free_vars) && (
                !self.fair_new_fun || self.encoded_len(term) <= 0xFFFF_FFFF)
            },
            Eterm::Export { module, function, .. } => Self::atom_fits_here(module)
                && Self::atom_fits_here(function),
            Eterm::BitBinary { data, .. } => data.len() as u64 <= 0xFFFF_FFFF,
            _ => true,
        }
    }

    /// Encodes one term. The term's lengths must fit their wire fields;
    /// the encoder does not check them.
    pub fn encode_term(&mut self, term: Eterm)
        requires
            encodable(term@, old(self).options()),
        ensures
            final(self).appended(old(self), enc_term(term@, old(self).options())),
    {
        self.write_term(&term);
    }
}

} // verus!
