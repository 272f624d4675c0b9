//! Terms of the agent language.

use std::collections::BTreeSet;

use bstr::BString;
use vstd::prelude::*;

use crate::bytestring::{bstring_bytes, bstring_eq};
use crate::literal::Literal;
use crate::variable::Variable;

pub mod conversion;

verus! {

broadcast use vstd::std_specs::vec::group_vec_axioms;

/// A term.
#[derive(Debug, PartialEq, Eq)]
pub enum Term {
    /// A number, held as the bit pattern of its `f32`, so that two numbers are equal
    /// exactly when their bits are.
    Number(u32),
    String(BString),
    Variable(Variable),
    /// A fixed-arity list of terms, unified element-wise.
    List(Vec<Term>),
    Literal(Literal),
}

/// `functor(arguments...)`, or a bare `functor` when there is no argument list.
#[derive(Debug, PartialEq, Eq)]
pub struct Structure {
    pub functor: Atom,
    pub arguments: Option<Vec<Term>>,
}

/// A name.
#[derive(Debug, PartialEq, Eq, PartialOrd, Ord, Hash)]
pub struct Atom(pub String);

impl Clone for Atom {
    fn clone(&self) -> (r: Self)
        ensures
            r.0@ == self.0@,
    {
        Atom(self.0.clone())
    }
}

/// The mathematical value of a [`Term`]; a variable is its id.
pub enum TermModel {
    Number(u32),
    String(Seq<u8>),
    Variable(u32),
    List(Seq<TermModel>),
    Literal(LiteralModel),
}

/// The mathematical value of a [`Structure`].
pub struct StructureModel {
    pub functor: Seq<char>,
    pub arguments: Option<Seq<TermModel>>,
}

/// The mathematical value of a [`Literal`].
pub struct LiteralModel {
    pub negated: bool,
    pub structure: StructureModel,
}

pub open spec fn terms_model(ts: Seq<Term>) -> Seq<TermModel>
    decreases ts,
{
    Seq::new(ts.len(), |i: int| if 0 <= i < ts.len() { term_model(ts[i]) } else { TermModel::Number(0) })
}

pub open spec fn arguments_model(a: Option<Vec<Term>>) -> Option<Seq<TermModel>>
    decreases a,
{
    match a {
        Some(v) => Some(terms_model(v@)),
        None => None,
    }
}

pub open spec fn structure_model(s: Structure) -> StructureModel
    decreases s,
{
    StructureModel { functor: s.functor.0@, arguments: arguments_model(s.arguments) }
}

pub open spec fn literal_model(l: Literal) -> LiteralModel
    decreases l,
{
    LiteralModel { negated: l.negated, structure: structure_model(l.structure) }
}

pub open spec fn term_model(t: Term) -> TermModel
    decreases t,
{
    match t {
        Term::Number(n) => TermModel::Number(n),
        Term::String(s) => TermModel::String(bstring_bytes(s)),
        Term::Variable(v) => TermModel::Variable(v.id.0),
        Term::List(items) => TermModel::List(terms_model(items@)),
        Term::Literal(l) => TermModel::Literal(literal_model(l)),
    }
}

impl View for Term {
    type V = TermModel;

    open spec fn view(&self) -> TermModel {
        term_model(*self)
    }
}

impl View for Structure {
    type V = StructureModel;

    open spec fn view(&self) -> StructureModel {
        structure_model(*self)
    }
}

impl View for Literal {
    type V = LiteralModel;

    open spec fn view(&self) -> LiteralModel {
        literal_model(*self)
    }
}

/// The argument list as a sequence: empty when there is none.
pub open spec fn argument_terms(a: Option<Seq<TermModel>>) -> Seq<TermModel> {
    match a {
        Some(ts) => ts,
        None => Seq::empty(),
    }
}

/// The ids of the variables that occur in a term.
pub open spec fn term_variables(t: TermModel) -> Set<u32>
    decreases t,
{
    match t {
        TermModel::Variable(v) => set![v],
        TermModel::List(items) => terms_variables(items),
        TermModel::Literal(l) => match l.structure.arguments {
            Some(a) => terms_variables(a),
            None => Set::empty(),
        },
        _ => Set::empty(),
    }
}

pub open spec fn terms_variables(ts: Seq<TermModel>) -> Set<u32>
    decreases ts,
{
    if ts.len() == 0 {
        Set::empty()
    } else {
        term_variables(ts[0]).union(terms_variables(ts.drop_first()))
    }
}

/// A term without variables.
pub open spec fn ground(t: TermModel) -> bool
    decreases t,
{
    match t {
        TermModel::Variable(_) => false,
        TermModel::List(items) => all_ground(items),
        TermModel::Literal(l) => match l.structure.arguments {
            Some(a) => all_ground(a),
            None => true,
        },
        _ => true,
    }
}

pub open spec fn all_ground(ts: Seq<TermModel>) -> bool
    decreases ts,
{
    ts.len() == 0 || (ground(ts[0]) && all_ground(ts.drop_first()))
}

/// The functor of a structure and the number of its arguments.
pub open spec fn atom_and_arity_of(s: StructureModel) -> (Seq<char>, nat) {
    (s.functor, argument_terms(s.arguments).len())
}

pub proof fn lemma_all_ground_take(ts: Seq<TermModel>, i: int)
    requires
        0 <= i < ts.len(),
    ensures
        all_ground(ts.take(i + 1)) == (all_ground(ts.take(i)) && ground(ts[i])),
    decreases i,
{
    let t1 = ts.take(i + 1);
    assert(t1[0] == ts[0]);
    if i == 0 {
        assert(t1.drop_first() =~= Seq::<TermModel>::empty());
        assert(ts.take(0) =~= Seq::<TermModel>::empty());
    } else {
        lemma_all_ground_take(ts.drop_first(), i - 1);
        assert(t1.drop_first() =~= ts.drop_first().take(i));
        assert(ts.take(i)[0] == ts[0]);
        assert(ts.take(i).drop_first() =~= ts.drop_first().take(i - 1));
    }
}

pub proof fn lemma_terms_variables_take(ts: Seq<TermModel>, i: int)
    requires
        0 <= i < ts.len(),
    ensures
        terms_variables(ts.take(i + 1)) == terms_variables(ts.take(i)).union(term_variables(ts[i])),
    decreases i,
{
    let t1 = ts.take(i + 1);
    assert(t1[0] == ts[0]);
    if i == 0 {
        assert(t1.drop_first() =~= Seq::<TermModel>::empty());
        assert(ts.take(0) =~= Seq::<TermModel>::empty());
        assert(terms_variables(ts.take(1)) =~= terms_variables(ts.take(0)).union(term_variables(ts[0])));
    } else {
        lemma_terms_variables_take(ts.drop_first(), i - 1);
        assert(t1.drop_first() =~= ts.drop_first().take(i));
        assert(ts.take(i)[0] == ts[0]);
        assert(ts.take(i).drop_first() =~= ts.drop_first().take(i - 1));
        assert(terms_variables(t1) =~= terms_variables(ts.take(i)).union(term_variables(ts[i])));
    }
}

/// A term is ground exactly when no variable occurs in it.
pub proof fn lemma_ground_iff_no_variables(t: TermModel)
    ensures
        ground(t) <==> term_variables(t).is_empty(),
    decreases t,
{
    match t {
        TermModel::Variable(v) => {
            assert(term_variables(t).contains(v));
        },
        TermModel::List(items) => {
            lemma_all_ground_iff_no_variables(items);
        },
        TermModel::Literal(l) => {
            match l.structure.arguments {
                Some(a) => lemma_all_ground_iff_no_variables(a),
                None => {},
            }
        },
        _ => {},
    }
}

pub proof fn lemma_all_ground_iff_no_variables(ts: Seq<TermModel>)
    ensures
        all_ground(ts) <==> terms_variables(ts).is_empty(),
    decreases ts,
{
    if ts.len() > 0 {
        lemma_ground_iff_no_variables(ts[0]);
        lemma_all_ground_iff_no_variables(ts.drop_first());
        if !term_variables(ts[0]).is_empty() {
            let v = term_variables(ts[0]).choose();
            assert(terms_variables(ts).contains(v));
        }
        if !terms_variables(ts.drop_first()).is_empty() {
            let v = terms_variables(ts.drop_first()).choose();
            assert(terms_variables(ts).contains(v));
        }
    }
}

impl Atom {
    /// The name, for display.
    pub fn display(&self) -> (r: &str)
        ensures
            r@ == self.0@,
    {
        self.0.as_str()
    }
}

/// Whether every term of the list is ground.
fn terms_are_ground(items: &Vec<Term>) -> (r: bool)
    ensures
        r == all_ground(terms_model(items@)),
    decreases items,
{
    let ghost ts = terms_model(items@);
    let mut i: usize = 0;
    while i < items.len()
        invariant
            i <= items.len(),
            ts == terms_model(items@),
            all_ground(ts.take(i as int)),
        decreases items.len() - i,
    {
        proof {
            assert(decreases_to!(*items => items[i as int]));
            lemma_all_ground_take(ts, i as int);
        }
        if !items[i].is_ground() {
            proof {
                lemma_all_ground_take(ts, i as int);
                lemma_all_ground_prefix(ts, i + 1);
            }
            return false;
        }
        i += 1;
    }
    assert(ts.take(items.len() as int) =~= ts);
    true
}

/// A list with a term that is not ground is not ground.
pub proof fn lemma_all_ground_prefix(ts: Seq<TermModel>, i: int)
    requires
        0 <= i <= ts.len(),
        !all_ground(ts.take(i)),
    ensures
        !all_ground(ts),
    decreases ts.len() - i,
{
    if i == ts.len() {
        assert(ts.take(i) =~= ts);
    } else {
        lemma_all_ground_take(ts, i);
        lemma_all_ground_prefix(ts, i + 1);
    }
}

impl Term {
    /// Whether the term holds no variable.
    pub fn is_ground(&self) -> (r: bool)
        ensures
            r == ground(self@),
        decreases self,
    {
        match self {
            Term::Number(_) | Term::String(_) => true,
            Term::Variable(_) => false,
            Term::List(items) => {
                proof {
                    assert(decreases_to!(*self => (*self)->List_0));
                }
                terms_are_ground(items)
            },
            Term::Literal(literal) => {
                proof {
                    assert(decreases_to!(*self => (*self)->Literal_0));
                }
                literal.is_ground()
            },
        }
    }
}

impl Structure {
    /// Whether no argument holds a variable.
    pub fn is_ground(&self) -> (r: bool)
        ensures
            r == all_ground(argument_terms(self@.arguments)),
        decreases self,
    {
        match &self.arguments {
            Some(args) => {
                proof {
                    assert(decreases_to!(*self => self.arguments));
                }
                terms_are_ground(args)
            },
            None => true,
        }
    }

    /// The functor and the number of arguments.
    pub fn atom_and_arity(&self) -> (r: (Atom, usize))
        ensures
            r.0.0@ == self.functor.0@,
            r.1 == argument_terms(self@.arguments).len(),
    {
        (
            self.functor.clone(),
            match &self.arguments {
                Some(args) => args.len(),
                None => 0,
            },
        )
    }
}

impl Literal {
    /// Whether the literal holds no variable.
    pub fn is_ground(&self) -> (r: bool)
        ensures
            r == all_ground(argument_terms(self@.structure.arguments)),
        decreases self,
    {
        proof {
            assert(decreases_to!(*self => self.structure));
        }
        self.structure.is_ground()
    }
}

/// Adds the ids of the variables of every term of the list to `vars`.
fn collect_terms_variables(items: &Vec<Term>, vars: &mut BTreeSet<u32>)
    ensures
        final(vars)@ == old(vars)@.union(terms_variables(terms_model(items@))),
    decreases items,
{
    let ghost ts = terms_model(items@);
    let mut i: usize = 0;
    assert(terms_variables(ts.take(0)) =~= Set::<u32>::empty()) by {
        assert(ts.take(0) =~= Seq::<TermModel>::empty());
    }
    while i < items.len()
        invariant
            i <= items.len(),
            ts == terms_model(items@),
            vars@ == old(vars)@.union(terms_variables(ts.take(i as int))),
        decreases items.len() - i,
    {
        proof {
            assert(decreases_to!(*items => items[i as int]));
            lemma_terms_variables_take(ts, i as int);
        }
        items[i].collect_variables(vars);
        assert(vars@ =~= old(vars)@.union(terms_variables(ts.take(i + 1))));
        i += 1;
    }
    assert(ts.take(items.len() as int) =~= ts);
}

impl Term {
    /// Adds the ids of the variables that occur in the term to `vars`.
    pub fn collect_variables(&self, vars: &mut BTreeSet<u32>)
        ensures
            final(vars)@ == old(vars)@.union(term_variables(self@)),
        decreases self,
    {
        match self {
            Term::Variable(v) => {
                vars.insert(v.id.0);
                assert(vars@ =~= old(vars)@.union(term_variables(self@)));
            },
            Term::List(items) => {
                proof {
                    assert(decreases_to!(*self => (*self)->List_0));
                }
                collect_terms_variables(items, vars);
            },
            Term::Literal(literal) => {
                proof {
                    assert(decreases_to!(*self => (*self)->Literal_0));
                }
                literal.collect_variables(vars);
            },
            _ => {
                assert(vars@ =~= old(vars)@.union(term_variables(self@)));
            },
        }
    }
}

impl Structure {
    /// Adds the ids of the variables of the arguments to `vars`.
    pub fn collect_variables(&self, vars: &mut BTreeSet<u32>)
        ensures
            final(vars)@ == old(vars)@.union(terms_variables(argument_terms(self@.arguments))),
        decreases self,
    {
        match &self.arguments {
            Some(args) => {
                proof {
                    assert(decreases_to!(*self => self.arguments));
                }
                collect_terms_variables(args, vars);
            },
            None => {
                assert(vars@ =~= old(vars)@.union(terms_variables(Seq::<TermModel>::empty())));
            },
        }
    }
}

impl Literal {
    /// Adds the ids of the variables of the literal to `vars`.
    pub fn collect_variables(&self, vars: &mut BTreeSet<u32>)
        ensures
            final(vars)@ == old(vars)@.union(terms_variables(argument_terms(self@.structure.arguments))),
        decreases self,
    {
        proof {
            assert(decreases_to!(*self => self.structure));
        }
        self.structure.collect_variables(vars)
    }

    /// The ids of the variables of the literal.
    pub fn variables(&self) -> (r: BTreeSet<u32>)
        ensures
            r@ == terms_variables(argument_terms(self@.structure.arguments)),
    {
        let mut vars = BTreeSet::new();
        self.collect_variables(&mut vars);
        assert(vars@ =~= terms_variables(argument_terms(self@.structure.arguments)));
        vars
    }

    /// The functor and the number of arguments.
    pub fn atom_and_arity(&self) -> (r: (Atom, usize))
        ensures
            r.0.0@ == self.structure.functor.0@,
            r.1 == argument_terms(self@.structure.arguments).len(),
    {
        self.structure.atom_and_arity()
    }
}

pub(crate) fn clone_terms(items: &Vec<Term>) -> (r: Vec<Term>)
    ensures
        terms_model(r@) == terms_model(items@),
    decreases items,
{
    let mut out: Vec<Term> = Vec::new();
    let mut i: usize = 0;
    while i < items.len()
        invariant
            i <= items.len(),
            out@.len() == i,
            forall|j: int| 0 <= j < i ==> out@[j]@ == items@[j]@,
        decreases items.len() - i,
    {
        proof {
            assert(decreases_to!(*items => items[i as int]));
        }
        out.push(items[i].clone());
        i += 1;
    }
    assert(terms_model(out@) =~= terms_model(items@));
    out
}

fn clone_arguments(args: &Option<Vec<Term>>) -> (r: Option<Vec<Term>>)
    ensures
        arguments_model(r) == arguments_model(*args),
    decreases args,
{
    match args {
        Some(v) => {
            proof {
                assert(decreases_to!(*args => (*args)->Some_0));
            }
            Some(clone_terms(v))
        },
        None => None,
    }
}

impl Clone for Term {
    fn clone(&self) -> (r: Self)
        ensures
            r@ == self@,
        decreases self,
    {
        match self {
            Term::Number(n) => Term::Number(*n),
            Term::String(s) => Term::String(s.clone()),
            Term::Variable(v) => Term::Variable(*v),
            Term::List(items) => {
                proof {
                    assert(decreases_to!(*self => (*self)->List_0));
                }
                Term::List(clone_terms(items))
            },
            Term::Literal(l) => {
                proof {
                    assert(decreases_to!(*self => (*self)->Literal_0));
                }
                Term::Literal(l.clone())
            },
        }
    }
}

impl Clone for Structure {
    fn clone(&self) -> (r: Self)
        ensures
            r@ == self@,
        decreases self,
    {
        proof {
            assert(decreases_to!(*self => self.arguments));
        }
        Structure { functor: self.functor.clone(), arguments: clone_arguments(&self.arguments) }
    }
}

impl Clone for Literal {
    fn clone(&self) -> (r: Self)
        ensures
            r@ == self@,
        decreases self,
    {
        proof {
            assert(decreases_to!(*self => self.structure));
        }
        Literal { negated: self.negated, structure: self.structure.clone() }
    }
}

/// Whether two term lists have the same value.
fn terms_equal(a: &Vec<Term>, b: &Vec<Term>) -> (r: bool)
    ensures
        r == (terms_model(a@) == terms_model(b@)),
    decreases a,
{
    if a.len() != b.len() {
        assert(terms_model(a@).len() != terms_model(b@).len());
        return false;
    }
    let mut i: usize = 0;
    while i < a.len()
        invariant
            i <= a.len(),
            a.len() == b.len(),
            forall|j: int| 0 <= j < i ==> a@[j]@ == b@[j]@,
        decreases a.len() - i,
    {
        proof {
            assert(decreases_to!(*a => a[i as int]));
        }
        if !a[i].equals(&b[i]) {
            assert(terms_model(a@)[i as int] != terms_model(b@)[i as int]);
            return false;
        }
        i += 1;
    }
    assert(terms_model(a@) =~= terms_model(b@));
    true
}

fn arguments_equal(a: &Option<Vec<Term>>, b: &Option<Vec<Term>>) -> (r: bool)
    ensures
        r == (arguments_model(*a) == arguments_model(*b)),
    decreases a,
{
    match (a, b) {
        (Some(x), Some(y)) => {
            proof {
                assert(decreases_to!(*a => (*a)->Some_0));
            }
            terms_equal(x, y)
        },
        (None, None) => true,
        _ => false,
    }
}

impl Term {
    /// Whether the two terms have the same value.
    pub fn equals(&self, other: &Term) -> (r: bool)
        ensures
            r == (self@ == other@),
        decreases self,
    {
        match (self, other) {
            (Term::Number(a), Term::Number(b)) => *a == *b,
            (Term::String(a), Term::String(b)) => bstring_eq(a, b),
            (Term::Variable(a), Term::Variable(b)) => a.id.0 == b.id.0,
            (Term::List(a), Term::List(b)) => {
                proof {
                    assert(decreases_to!(*self => (*self)->List_0));
                }
                terms_equal(a, b)
            },
            (Term::Literal(a), Term::Literal(b)) => {
                proof {
                    assert(decreases_to!(*self => (*self)->Literal_0));
                }
                a.equals(b)
            },
            _ => false,
        }
    }
}

impl Structure {
    /// Whether the two structures have the same value.
    pub fn equals(&self, other: &Structure) -> (r: bool)
        ensures
            r == (self@ == other@),
        decreases self,
    {
        proof {
            assert(decreases_to!(*self => self.arguments));
        }
        self.functor.0 == other.functor.0 && arguments_equal(&self.arguments, &other.arguments)
    }
}

impl Literal {
    /// Whether the two literals have the same value.
    pub fn equals(&self, other: &Literal) -> (r: bool)
        ensures
            r == (self@ == other@),
        decreases self,
    {
        proof {
            assert(decreases_to!(*self => self.structure));
        }
        self.negated == other.negated && self.structure.equals(&other.structure)
    }
}

} // verus!
