//! Substitutions: what a term becomes when every variable in it is replaced by a term,
//! and what it means for a substitution to meet a set of binding constraints.

use vstd::prelude::*;

use crate::term::{LiteralModel, StructureModel, TermModel};

use super::traits::{pairwise_constraints, structure_constraints, term_constraints};
use super::error::UnificationError;

verus! {

/// The term `t` with every variable `v` in it replaced by `f(v)`.
pub open spec fn apply(f: spec_fn(u32) -> TermModel, t: TermModel) -> TermModel
    decreases t,
{
    match t {
        TermModel::Variable(v) => f(v),
        TermModel::List(items) => TermModel::List(apply_all(f, items)),
        TermModel::Literal(l) => TermModel::Literal(
            LiteralModel {
                negated: l.negated,
                structure: StructureModel {
                    functor: l.structure.functor,
                    arguments: match l.structure.arguments {
                        Some(a) => Some(apply_all(f, a)),
                        None => None,
                    },
                },
            },
        ),
        _ => t,
    }
}

/// [`apply`] on each term of a list.
pub open spec fn apply_all(f: spec_fn(u32) -> TermModel, ts: Seq<TermModel>) -> Seq<TermModel>
    decreases ts,
{
    Seq::new(ts.len(), |i: int| if 0 <= i < ts.len() { apply(f, ts[i]) } else { TermModel::Number(0) })
}

/// `f` meets every constraint: the variable and the term become the same term.
pub open spec fn satisfies(f: spec_fn(u32) -> TermModel, cs: Seq<(u32, TermModel)>) -> bool {
    forall|i: int| 0 <= i < cs.len() ==> #[trigger] f(cs[i].0) == apply(f, cs[i].1)
}

pub proof fn lemma_satisfies_concat(f: spec_fn(u32) -> TermModel, a: Seq<(u32, TermModel)>, b: Seq<(u32, TermModel)>)
    ensures
        satisfies(f, a + b) <==> satisfies(f, a) && satisfies(f, b),
{
    let ab = a + b;
    if satisfies(f, ab) {
        assert forall|i: int| 0 <= i < a.len() implies #[trigger] f(a[i].0) == apply(f, a[i].1) by {
            assert(ab[i] == a[i]);
            assert(f(ab[i].0) == apply(f, ab[i].1));
        }
        assert forall|i: int| 0 <= i < b.len() implies #[trigger] f(b[i].0) == apply(f, b[i].1) by {
            assert(ab[a.len() + i] == b[i]);
            assert(f(ab[a.len() + i].0) == apply(f, ab[a.len() + i].1));
        }
    }
    if satisfies(f, a) && satisfies(f, b) {
        assert forall|i: int| 0 <= i < ab.len() implies #[trigger] f(ab[i].0) == apply(f, ab[i].1) by {
            if i < a.len() {
                assert(ab[i] == a[i]);
                assert(f(a[i].0) == apply(f, a[i].1));
            } else {
                assert(ab[i] == b[i - a.len()]);
                assert(f(b[i - a.len()].0) == apply(f, b[i - a.len()].1));
            }
        }
    }
}

proof fn lemma_apply_all_split(f: spec_fn(u32) -> TermModel, xs: Seq<TermModel>)
    requires
        xs.len() > 0,
    ensures
        apply_all(f, xs).len() == xs.len(),
        apply_all(f, xs)[0] == apply(f, xs[0]),
        apply_all(f, xs).drop_first() == apply_all(f, xs.drop_first()),
{
    assert(apply_all(f, xs).drop_first() =~= apply_all(f, xs.drop_first()));
}

proof fn lemma_seq_eq_split(s: Seq<TermModel>, t: Seq<TermModel>)
    requires
        s.len() == t.len(),
        s.len() > 0,
    ensures
        s == t <==> (s[0] == t[0] && s.drop_first() == t.drop_first()),
{
    if s[0] == t[0] && s.drop_first() == t.drop_first() {
        assert forall|i: int| 0 <= i < s.len() implies s[i] == t[i] by {
            if i > 0 {
                assert(s.drop_first()[i - 1] == t.drop_first()[i - 1]);
            }
        }
        assert(s =~= t);
    }
}

/// When the constraints of two terms exist, a substitution meets them exactly when it
/// makes the two terms equal.
pub proof fn lemma_constraints_exact(f: spec_fn(u32) -> TermModel, a: TermModel, b: TermModel)
    requires
        term_constraints(a, b) is Ok,
    ensures
        satisfies(f, term_constraints(a, b)->Ok_0) <==> apply(f, a) == apply(f, b),
    decreases a,
{
    let cs = term_constraints(a, b)->Ok_0;
    match a {
        TermModel::Variable(v) => {
            assert(cs == seq![(v, b)]);
            assert(cs[0] == (v, b));
            assert(f(cs[0].0) == f(v));
            if apply(f, a) == apply(f, b) {
                assert forall|i: int| 0 <= i < cs.len() implies #[trigger] f(cs[i].0) == apply(f, cs[i].1) by {
                    assert(i == 0);
                }
            }
        },
        _ => match b {
            TermModel::Variable(v) => {
                assert(cs == seq![(v, a)]);
                assert(cs[0] == (v, a));
                assert(f(cs[0].0) == f(v));
                if apply(f, a) == apply(f, b) {
                    assert forall|i: int| 0 <= i < cs.len() implies #[trigger] f(cs[i].0) == apply(f, cs[i].1) by {
                        assert(i == 0);
                    }
                }
            },
            _ => match (a, b) {
                (TermModel::Literal(l1), TermModel::Literal(l2)) => {
                    lemma_structure_constraints_exact(f, l1.structure, l2.structure);
                },
                (TermModel::List(x), TermModel::List(y)) => {
                    lemma_pairwise_constraints_exact(f, x, y);
                },
                _ => {
                    assert(cs =~= Seq::<(u32, TermModel)>::empty());
                },
            },
        },
    }
}

pub proof fn lemma_structure_constraints_exact(f: spec_fn(u32) -> TermModel, s1: StructureModel, s2: StructureModel)
    requires
        structure_constraints(s1, s2) is Ok,
    ensures
        satisfies(f, structure_constraints(s1, s2)->Ok_0) <==> (s1.functor == s2.functor && match (s1.arguments, s2.arguments) {
            (Some(x), Some(y)) => apply_all(f, x) == apply_all(f, y),
            (None, None) => true,
            _ => false,
        }),
    decreases s1,
{
    match s1.arguments {
        Some(x) => match s2.arguments {
            Some(y) => {
                lemma_pairwise_constraints_exact(f, x, y);
            },
            None => {},
        },
        None => {},
    }
}

pub proof fn lemma_pairwise_constraints_exact(f: spec_fn(u32) -> TermModel, xs: Seq<TermModel>, ys: Seq<TermModel>)
    requires
        xs.len() == ys.len(),
        pairwise_constraints(xs, ys) is Ok,
    ensures
        satisfies(f, pairwise_constraints(xs, ys)->Ok_0) <==> apply_all(f, xs) == apply_all(f, ys),
    decreases xs,
{
    if xs.len() == 0 {
        assert(apply_all(f, xs) =~= apply_all(f, ys));
    } else {
        let c = term_constraints(xs[0], ys[0])->Ok_0;
        let r = pairwise_constraints(xs.drop_first(), ys.drop_first())->Ok_0;
        lemma_constraints_exact(f, xs[0], ys[0]);
        lemma_pairwise_constraints_exact(f, xs.drop_first(), ys.drop_first());
        lemma_satisfies_concat(f, c, r);
        lemma_apply_all_split(f, xs);
        lemma_apply_all_split(f, ys);
        lemma_seq_eq_split(apply_all(f, xs), apply_all(f, ys));
    }
}

/// When two terms have no constraints, no substitution makes them equal.
pub proof fn lemma_constraints_clash(f: spec_fn(u32) -> TermModel, a: TermModel, b: TermModel)
    requires
        term_constraints(a, b) is Err,
    ensures
        apply(f, a) != apply(f, b),
    decreases a,
{
    match a {
        TermModel::Variable(v) => {},
        _ => match b {
            TermModel::Variable(v) => {},
            _ => match (a, b) {
                (TermModel::Literal(l1), TermModel::Literal(l2)) => {
                    if l1.negated == l2.negated {
                        lemma_structure_constraints_clash(f, l1.structure, l2.structure);
                    }
                },
                (TermModel::List(x), TermModel::List(y)) => {
                    if x.len() == y.len() {
                        lemma_pairwise_constraints_clash(f, x, y);
                    } else {
                        assert(apply_all(f, x).len() != apply_all(f, y).len());
                    }
                },
                _ => {},
            },
        },
    }
}

pub proof fn lemma_structure_constraints_clash(f: spec_fn(u32) -> TermModel, s1: StructureModel, s2: StructureModel)
    requires
        structure_constraints(s1, s2) is Err,
    ensures
        !(s1.functor == s2.functor && match (s1.arguments, s2.arguments) {
            (Some(x), Some(y)) => apply_all(f, x) == apply_all(f, y),
            (None, None) => true,
            _ => false,
        }),
    decreases s1,
{
    if s1.functor == s2.functor {
        match s1.arguments {
            Some(x) => match s2.arguments {
                Some(y) => {
                    if x.len() == y.len() {
                        lemma_pairwise_constraints_clash(f, x, y);
                    } else {
                        assert(apply_all(f, x).len() != apply_all(f, y).len());
                    }
                },
                None => {},
            },
            None => {},
        }
    }
}

pub proof fn lemma_pairwise_constraints_clash(f: spec_fn(u32) -> TermModel, xs: Seq<TermModel>, ys: Seq<TermModel>)
    requires
        xs.len() == ys.len(),
        pairwise_constraints(xs, ys) is Err,
    ensures
        apply_all(f, xs) != apply_all(f, ys),
    decreases xs,
{
    lemma_apply_all_split(f, xs);
    lemma_apply_all_split(f, ys);
    lemma_seq_eq_split(apply_all(f, xs), apply_all(f, ys));
    if term_constraints(xs[0], ys[0]) is Err {
        lemma_constraints_clash(f, xs[0], ys[0]);
    } else {
        lemma_pairwise_constraints_clash(f, xs.drop_first(), ys.drop_first());
    }
}


/// Two terms without constraints differ somewhere; no cycle is involved.
pub proof fn lemma_constraints_error_kind(a: TermModel, b: TermModel)
    ensures
        term_constraints(a, b) is Err ==> term_constraints(a, b)->Err_0 != UnificationError::CyclicReference
            && term_constraints(a, b)->Err_0 != UnificationError::StepLimitReached,
    decreases a,
{
    match a {
        TermModel::Variable(v) => {},
        _ => match b {
            TermModel::Variable(v) => {},
            _ => match (a, b) {
                (TermModel::Literal(l1), TermModel::Literal(l2)) => {
                    lemma_structure_error_kind(l1.structure, l2.structure);
                },
                (TermModel::List(x), TermModel::List(y)) => {
                    lemma_pairwise_error_kind(x, y);
                },
                _ => {},
            },
        },
    }
}

pub proof fn lemma_structure_error_kind(s1: StructureModel, s2: StructureModel)
    ensures
        structure_constraints(s1, s2) is Err ==> structure_constraints(s1, s2)->Err_0 != UnificationError::CyclicReference
            && structure_constraints(s1, s2)->Err_0 != UnificationError::StepLimitReached,
    decreases s1,
{
    match s1.arguments {
        Some(x) => match s2.arguments {
            Some(y) => {
                lemma_pairwise_error_kind(x, y);
            },
            None => {},
        },
        None => {},
    }
}

pub proof fn lemma_pairwise_error_kind(xs: Seq<TermModel>, ys: Seq<TermModel>)
    ensures
        pairwise_constraints(xs, ys) is Err ==> pairwise_constraints(xs, ys)->Err_0 != UnificationError::CyclicReference
            && pairwise_constraints(xs, ys)->Err_0 != UnificationError::StepLimitReached,
    decreases xs,
{
    if xs.len() > 0 && ys.len() > 0 {
        lemma_constraints_error_kind(xs[0], ys[0]);
        lemma_pairwise_error_kind(xs.drop_first(), ys.drop_first());
    }
}

} // verus!
