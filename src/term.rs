//! The value model: executable terms and their mathematical views.
use vstd::prelude::*;

verus! {

broadcast use vstd::std_specs::vec::axiom_vec_index_decreases;

pub type Atom = String;

pub type Tuple = Vec<Eterm>;

pub type List = Vec<Eterm>;

/// A process identifier; shared by `Pid`, `Fun` and `NewFun`.
#[derive(Debug, Clone, PartialEq)]
pub struct Pid {
    pub node: Atom,
    pub id: u32,
    pub serial: u32,
    pub creation: u8,
}

/// A signed integer of any size: a sign and base-2^32 digits, least
/// significant first. In normal form the last digit is not zero and zero
/// is never negative.
#[derive(Debug, Clone, PartialEq)]
pub struct BigNum {
    pub negative: bool,
    pub digits: Vec<u32>,
}

/// A decoded term. A `Float` holds the IEEE-754 bits of a double.
#[derive(Debug, PartialEq)]
pub enum Eterm {
    SmallInteger(u8),
    Integer(i32),
    Float(u64),
    Atom(Atom),
    Reference { node: Atom, id: Vec<u8>, creation: u8 },
    Port { node: Atom, id: u32, creation: u8 },
    Pid(Pid),
    Tuple(Tuple),
    MapPairs(Vec<(Eterm, Eterm)>),
    Nil,
    String(Vec<u8>),
    List(List),
    Binary(Vec<u8>),
    BigNum(BigNum),
    Fun { pid: Pid, module: Atom, index: u32, uniq: u32, free_vars: Vec<Eterm> },
    NewFun {
        arity: u8,
        uniq: Vec<u8>,
        index: u32,
        module: Atom,
        old_index: u32,
        old_uniq: u32,
        pid: Pid,
        free_vars: Vec<Eterm>,
    },
    Export { module: Atom, function: Atom, arity: u8 },
    BitBinary { bits: u8, data: Vec<u8> },
}

/// The view of a `Pid`.
pub struct PidTerm {
    pub node: Seq<char>,
    pub id: u32,
    pub serial: u32,
    pub creation: u8,
}

/// The mathematical value of an `Eterm`: text as characters, byte
/// strings and children as sequences.
pub enum Term {
    SmallInteger(u8),
    Integer(i32),
    Float(u64),
    Atom(Seq<char>),
    Reference { node: Seq<char>, id: Seq<u8>, creation: u8 },
    Port { node: Seq<char>, id: u32, creation: u8 },
    Pid(PidTerm),
    Tuple(Seq<Term>),
    MapPairs(Seq<(Term, Term)>),
    Nil,
    String(Seq<u8>),
    List(Seq<Term>),
    Binary(Seq<u8>),
    BigNum(bool, Seq<u32>),
    Fun { pid: PidTerm, module: Seq<char>, index: u32, uniq: u32, free_vars: Seq<Term> },
    NewFun {
        arity: u8,
        uniq: Seq<u8>,
        index: u32,
        module: Seq<char>,
        old_index: u32,
        old_uniq: u32,
        pid: PidTerm,
        free_vars: Seq<Term>,
    },
    Export { module: Seq<char>, function: Seq<char>, arity: u8 },
    BitBinary { bits: u8, data: Seq<u8> },
}

impl Pid {
    pub open spec fn view(&self) -> PidTerm {
        PidTerm { node: self.node@, id: self.id, serial: self.serial, creation: self.creation }
    }
}

impl Eterm {
    pub open spec fn view(&self) -> Term
        decreases self,
    {
        match self {
            Eterm::SmallInteger(n) => Term::SmallInteger(*n),
            Eterm::Integer(n) => Term::Integer(*n),
            Eterm::Float(b) => Term::Float(*b),
            Eterm::Atom(a) => Term::Atom(a@),
            Eterm::Reference { node, id, creation } => Term::Reference {
                node: node@,
                id: id@,
                creation: *creation,
            },
            Eterm::Port { node, id, creation } => Term::Port {
                node: node@,
                id: *id,
                creation: *creation,
            },
            Eterm::Pid(p) => Term::Pid(p@),
            Eterm::Tuple(v) => Term::Tuple(
                Seq::new(v.len() as nat, |i: int| if 0 <= i < v.len() { v[i].view() } else { Term::Nil }),
            ),
            Eterm::MapPairs(v) => Term::MapPairs(
                Seq::new(
                    v.len() as nat,
                    |i: int|
                        if 0 <= i < v.len() {
                            (v[i].0.view(), v[i].1.view())
                        } else {
                            (Term::Nil, Term::Nil)
                        },
                ),
            ),
            Eterm::Nil => Term::Nil,
            Eterm::String(s) => Term::String(s@),
            Eterm::List(v) => Term::List(
                Seq::new(v.len() as nat, |i: int| if 0 <= i < v.len() { v[i].view() } else { Term::Nil }),
            ),
            Eterm::Binary(b) => Term::Binary(b@),
            Eterm::BigNum(n) => Term::BigNum(n.negative, n.digits@),
            Eterm::Fun { pid, module, index, uniq, free_vars } => Term::Fun {
                pid: pid@,
                module: module@,
                index: *index,
                uniq: *uniq,
                free_vars: Seq::new(
                    free_vars.len() as nat,
                    |i: int|
                        if 0 <= i < free_vars.len() {
                            free_vars[i].view()
                        } else {
                            Term::Nil
                        },
                ),
            },
            Eterm::NewFun { arity, uniq, index, module, old_index, old_uniq, pid, free_vars } =>
                Term::NewFun {
                arity: *arity,
                uniq: uniq@,
                index: *index,
                module: module@,
                old_index: *old_index,
                old_uniq: *old_uniq,
                pid: pid@,
                free_vars: Seq::new(
                    free_vars.len() as nat,
                    |i: int|
                        if 0 <= i < free_vars.len() {
                            free_vars[i].view()
                        } else {
                            Term::Nil
                        },
                ),
            },
            Eterm::Export { module, function, arity } => Term::Export {
                module: module@,
                function: function@,
                arity: *arity,
            },
            Eterm::BitBinary { bits, data } => Term::BitBinary { bits: *bits, data: data@ },
        }
    }
}

/// The views of a sequence of terms.
pub open spec fn views(v: Seq<Eterm>) -> Seq<Term> {
    Seq::new(v.len(), |i: int| v[i]@)
}

/// The views of a sequence of pairs of terms.
pub open spec fn pair_views(v: Seq<(Eterm, Eterm)>) -> Seq<(Term, Term)> {
    Seq::new(v.len(), |i: int| (v[i].0@, v[i].1@))
}

/// The views of the tuple and list variants, element by element.
pub proof fn lemma_seq_views(v: Vec<Eterm>)
    ensures
        Eterm::Tuple(v)@ == Term::Tuple(views(v@)),
        Eterm::List(v)@ == Term::List(views(v@)),
{
    assert(Eterm::Tuple(v)@->Tuple_0 =~= views(v@));
    assert(Eterm::List(v)@->List_0 =~= views(v@));
}

/// The view of the map variant, pair by pair.
pub proof fn lemma_pair_views(ps: Vec<(Eterm, Eterm)>)
    ensures
        Eterm::MapPairs(ps)@ == Term::MapPairs(pair_views(ps@)),
{
    assert(Eterm::MapPairs(ps)@->MapPairs_0 =~= pair_views(ps@));
}

/// The views of the closure variants, with their free variables element
/// by element.
pub proof fn lemma_fun_views(t: Eterm)
    ensures
        t is Fun ==> t@->Fun_free_vars == views(t->Fun_free_vars@),
        t is NewFun ==> t@->NewFun_free_vars == views(t->NewFun_free_vars@),
{
    match t {
        Eterm::Fun { free_vars, .. } => {
            assert(t@->Fun_free_vars =~= views(free_vars@));
        },
        Eterm::NewFun { free_vars, .. } => {
            assert(t@->NewFun_free_vars =~= views(free_vars@));
        },
        _ => {},
    }
}

} // verus!
