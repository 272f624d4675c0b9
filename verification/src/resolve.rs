//! Putting the terms that bindings give their variables in place of the variables.

use vstd::prelude::*;

use crate::bindings::{alias_constraints, alias_rep, bound_constraints, last_entry_for, Bindings};
use crate::literal::Literal;
use crate::term::{LiteralModel, Structure, StructureModel, Term, TermModel, terms_model};
use crate::unification::substitution::{apply, apply_all, lemma_satisfies_concat, satisfies};
use crate::unification::traits::apply_structure;

verus! {

broadcast use vstd::std_specs::vec::group_vec_axioms;

/// Why a resolved term cannot stand where it is used.
#[derive(Debug, Clone, Copy, PartialEq, Eq, PartialOrd, Ord)]
pub enum ResolveFailure {
    /// The variable resolved to a term of a kind that cannot stand in its place: where a
    /// literal is expected, a variable must resolve to a literal.
    IncorrectKind,
}

impl ResolveFailure {
    /// The message the failure displays.
    pub fn message(&self) -> (s: &'static str)
        ensures
            s@ == match self {
                ResolveFailure::IncorrectKind => "resolve failure: incorrect kind"@,
            },
    {
        match self {
            ResolveFailure::IncorrectKind => "resolve failure: incorrect kind",
        }
    }
}

impl Bindings {
    /// Each variable replaced by the term it is bound to, if it is bound to one.
    pub open spec fn lookup(&self) -> spec_fn(u32) -> TermModel {
        |v: u32|
            match self.bound_term(v) {
                Some(t) => t,
                None => TermModel::Variable(v),
            }
    }
}

/// Something whose variables the terms of bindings can replace.
pub trait Resolve: Sized {
    /// The value with every bound variable replaced by its term.
    fn resolve(self, bindings: &Bindings) -> Result<Self, ResolveFailure>;
}

/// Each term of the list resolved.
pub(crate) fn resolve_terms(items: &Vec<Term>, bindings: &Bindings) -> (r: Vec<Term>)
    ensures
        terms_model(r@) == apply_all(bindings.lookup(), terms_model(items@)),
    decreases items,
{
    let ghost ts = terms_model(items@);
    let mut out: Vec<Term> = Vec::new();
    let mut i: usize = 0;
    while i < items.len()
        invariant
            i <= items.len(),
            ts == terms_model(items@),
            out@.len() == i,
            forall|j: int| 0 <= j < i ==> #[trigger] out@[j]@ == apply(bindings.lookup(), ts[j]),
        decreases items.len() - i,
    {
        proof {
            assert(decreases_to!(*items => items[i as int]));
        }
        let t = resolve_term(&items[i], bindings);
        out.push(t);
        i += 1;
    }
    assert forall|j: int| 0 <= j < out@.len() implies terms_model(out@)[j] == apply_all(bindings.lookup(), ts)[j] by {
        assert(out@[j]@ == apply(bindings.lookup(), ts[j]));
    }
    assert(terms_model(out@) =~= apply_all(bindings.lookup(), ts));
    out
}

/// The term with every bound variable replaced by its term.
fn resolve_term(term: &Term, bindings: &Bindings) -> (r: Term)
    ensures
        r@ == apply(bindings.lookup(), term@),
    decreases term,
{
    match term {
        Term::Variable(v) => match bindings.get(v) {
            Some(t) => t.clone(),
            None => term.clone(),
        },
        Term::List(items) => {
            proof {
                assert(decreases_to!(*term => (*term)->List_0));
            }
            Term::List(resolve_terms(items, bindings))
        },
        Term::Literal(l) => {
            proof {
                assert(decreases_to!(*term => (*term)->Literal_0));
                assert(decreases_to!(l => l.structure));
            }
            let structure = resolve_structure(&l.structure, bindings);
            let lit = Literal { negated: l.negated, structure };
            assert(lit@ == LiteralModel { negated: l.negated, structure: structure@ });
            Term::Literal(lit)
        },
        _ => term.clone(),
    }
}

/// The structure with every bound variable of its arguments replaced by its term.
fn resolve_structure(structure: &Structure, bindings: &Bindings) -> (r: Structure)
    ensures
        r@ == apply_structure(bindings.lookup(), structure@),
    decreases structure,
{
    let arguments = match &structure.arguments {
        Some(args) => {
            proof {
                assert(decreases_to!(*structure => structure.arguments));
                assert(decreases_to!(structure.arguments => (structure.arguments)->Some_0));
            }
            Some(resolve_terms(args, bindings))
        },
        None => None,
    };
    let r = Structure { functor: structure.functor.clone(), arguments };
    assert(r@ == StructureModel {
        functor: structure.functor.0@,
        arguments: match arguments {
            Some(a) => Some(terms_model(a@)),
            None => None,
        },
    });
    r
}

impl Resolve for Term {
    /// Never fails.
    fn resolve(self, bindings: &Bindings) -> (r: Result<Term, ResolveFailure>)
        ensures
            r matches Ok(t) && t@ == apply(bindings.lookup(), self@),
    {
        Ok(resolve_term(&self, bindings))
    }
}

impl Resolve for Structure {
    /// Never fails.
    fn resolve(self, bindings: &Bindings) -> (r: Result<Structure, ResolveFailure>)
        ensures
            r matches Ok(s) && s@ == apply_structure(bindings.lookup(), self@),
    {
        Ok(resolve_structure(&self, bindings))
    }
}

impl Resolve for Literal {
    /// Never fails: a literal resolves to the literal with its structure resolved.
    fn resolve(self, bindings: &Bindings) -> (r: Result<Literal, ResolveFailure>)
        ensures
            r matches Ok(l) && l@ == (LiteralModel { negated: self.negated, structure: apply_structure(bindings.lookup(), self.structure@) }),
    {
        let structure = resolve_structure(&self.structure, bindings);
        Ok(Literal { negated: self.negated, structure })
    }
}


/// Replacing variables by `f` and then by `g` is replacing each variable `v` by `f(v)` with
/// its variables replaced by `g`.
pub proof fn lemma_apply_compose(f: spec_fn(u32) -> TermModel, g: spec_fn(u32) -> TermModel, t: TermModel)
    ensures
        apply(g, apply(f, t)) == apply(|v: u32| apply(g, f(v)), t),
    decreases t,
{
    let h = |v: u32| apply(g, f(v));
    match t {
        TermModel::List(items) => {
            lemma_apply_all_compose(f, g, items);
        },
        TermModel::Literal(l) => match l.structure.arguments {
            Some(a) => {
                lemma_apply_all_compose(f, g, a);
            },
            None => {},
        },
        _ => {},
    }
}

pub proof fn lemma_apply_all_compose(f: spec_fn(u32) -> TermModel, g: spec_fn(u32) -> TermModel, ts: Seq<TermModel>)
    ensures
        apply_all(g, apply_all(f, ts)) == apply_all(|v: u32| apply(g, f(v)), ts),
    decreases ts,
{
    assert forall|i: int| 0 <= i < ts.len() implies apply_all(g, apply_all(f, ts))[i] == apply_all(|v: u32| apply(g, f(v)), ts)[i] by {
        lemma_apply_compose(f, g, ts[i]);
    }
    assert(apply_all(g, apply_all(f, ts)) =~= apply_all(|v: u32| apply(g, f(v)), ts));
}

/// The solution of bindings is their lookup followed by the renaming of aliases.
pub proof fn lemma_solution_is_renamed_lookup(b: Bindings, t: TermModel)
    ensures
        apply(b.solution(), t) == apply(b.renaming(), apply(b.lookup(), t)),
{
    lemma_apply_compose(b.lookup(), b.renaming(), t);
    assert(b.solution() =~= |v: u32| apply(b.renaming(), b.lookup()(v)));
}

/// After two terms unify, resolving each of them with the result gives the same term,
/// once aliased variables are named alike.
pub proof fn lemma_unified_terms_resolve_alike(b: Bindings, x: TermModel, y: TermModel)
    requires
        apply(b.solution(), x) == apply(b.solution(), y),
    ensures
        apply(b.renaming(), apply(b.lookup(), x)) == apply(b.renaming(), apply(b.lookup(), y)),
{
    lemma_solution_is_renamed_lookup(b, x);
    lemma_solution_is_renamed_lookup(b, y);
}

/// A substitution that meets the alias constraints gives a variable what it gives the
/// variable that names it.
pub proof fn lemma_alias_rep_respected(f: spec_fn(u32) -> TermModel, pairs: Seq<(u32, u32)>, v: u32)
    requires
        satisfies(f, alias_constraints(pairs)),
    ensures
        f(alias_rep(pairs, v)) == f(v),
    decreases pairs.len(),
{
    if pairs.len() > 0 {
        let n = pairs.len() - 1;
        let d = pairs.drop_last();
        let ac = alias_constraints(pairs);
        assert(ac[n as int] == (pairs[n as int].0, TermModel::Variable(pairs[n as int].1)));
        assert(f(ac[n as int].0) == apply(f, ac[n as int].1));
        if pairs.last().1 != v {
            assert forall|i: int| 0 <= i < alias_constraints(d).len() implies #[trigger] f(alias_constraints(d)[i].0) == apply(f, alias_constraints(d)[i].1) by {
                assert(alias_constraints(d)[i] == ac[i]);
            }
            lemma_alias_rep_respected(f, d, v);
        }
    }
}

/// A substitution that meets the constraints of the entries gives a variable what its last
/// entry binds it to.
pub proof fn lemma_bound_respected(f: spec_fn(u32) -> TermModel, es: Seq<(u32, Option<TermModel>)>, v: u32)
    requires
        satisfies(f, bound_constraints(es)),
        last_entry_for(es, v) matches Some(Some(_)),
    ensures
        f(v) == apply(f, last_entry_for(es, v)->Some_0->Some_0),
    decreases es.len(),
{
    let d = es.drop_last();
    let bd = bound_constraints(d);
    match es.last().1 {
        Some(t) => {
            assert(bound_constraints(es) =~= bd + seq![(es.last().0, t)]);
            lemma_satisfies_concat(f, bd, seq![(es.last().0, t)]);
            if es.last().0 == v {
                let c = bound_constraints(es);
                assert(c[bd.len() as int] == (v, t));
                assert(f(c[bd.len() as int].0) == apply(f, c[bd.len() as int].1));
            } else {
                lemma_bound_respected(f, d, v);
            }
        },
        None => {
            if es.last().0 != v {
                lemma_bound_respected(f, d, v);
            }
        },
    }
}

/// A substitution that meets the constraints of bindings absorbs what they stand for:
/// applying it after their solution is applying it alone.
pub proof fn lemma_absorbs(b: Bindings, f: spec_fn(u32) -> TermModel, t: TermModel)
    requires
        satisfies(f, b.constraints()),
    ensures
        apply(f, apply(b.solution(), t)) == apply(f, t),
{
    lemma_satisfies_concat(f, bound_constraints(b.entries()), alias_constraints(b.alias_pairs()));
    let h = |x: u32| apply(f, b.renaming()(x));
    assert(h =~= f) by {
        assert forall|x: u32| #[trigger] h(x) == f(x) by {
            lemma_alias_rep_respected(f, b.alias_pairs(), x);
        }
    }
    let g = |v: u32| apply(f, b.solution()(v));
    assert(g =~= f) by {
        assert forall|v: u32| #[trigger] g(v) == f(v) by {
            lemma_alias_rep_respected(f, b.alias_pairs(), v);
            match b.bound_term(v) {
                Some(tv) => {
                    lemma_apply_compose(b.renaming(), f, tv);
                    assert((|x: u32| apply(f, b.renaming()(x))) =~= f);
                    lemma_bound_respected(f, b.entries(), v);
                },
                None => {},
            }
        }
    }
    lemma_apply_compose(b.solution(), f, t);
    assert((|v: u32| apply(f, b.solution()(v))) =~= f);
}

/// What the solution of bindings meets, every substitution that meets their constraints
/// meets.
pub proof fn lemma_entails(b: Bindings, f: spec_fn(u32) -> TermModel, cs: Seq<(u32, TermModel)>)
    requires
        satisfies(b.solution(), cs),
        satisfies(f, b.constraints()),
    ensures
        satisfies(f, cs),
{
    assert forall|i: int| 0 <= i < cs.len() implies #[trigger] f(cs[i].0) == apply(f, cs[i].1) by {
        assert(b.solution()(cs[i].0) == apply(b.solution(), cs[i].1));
        lemma_absorbs(b, f, TermModel::Variable(cs[i].0));
        lemma_absorbs(b, f, cs[i].1);
    }
}

/// Terms that the solution of bindings makes equal, every substitution that meets their
/// constraints makes equal.
pub proof fn lemma_entails_equal(b: Bindings, f: spec_fn(u32) -> TermModel, x: TermModel, y: TermModel)
    requires
        apply(b.solution(), x) == apply(b.solution(), y),
        satisfies(f, b.constraints()),
    ensures
        apply(f, x) == apply(f, y),
{
    lemma_absorbs(b, f, x);
    lemma_absorbs(b, f, y);
}

} // verus!
