//! Solving a set of binding constraints: variables are grouped in equivalence classes
//! (a union-find forest), each class may hold one term, and two terms that meet in a
//! class give new constraints between their parts.

use std::collections::BTreeMap;

use vstd::prelude::*;

use crate::term::{all_ground, ground, lemma_all_ground_take, LiteralModel, StructureModel, Term, TermModel, lemma_terms_variables_take, term_variables, terms_model, terms_variables};
use crate::unification::constraint::{constraints_model, BindingConstraint};
use crate::unification::substitution::{apply, apply_all, lemma_constraints_clash, lemma_constraints_error_kind, lemma_constraints_exact, lemma_satisfies_concat, satisfies};
use crate::unification::error::UnificationError;
use crate::unification::traits::{ground_values, lemma_ground_side_constraints, pairwise_constraints, structure_constraints, term_constraints};
use crate::variable::VariableId;

use super::{alias_rep, distinct_ground, distinct_nonvar, distinct_vars, entry_model, last_entry_for, AliasMap, Bindings};

verus! {

broadcast use {vstd::std_specs::vec::group_vec_axioms, vstd::std_specs::btree::group_btree_axioms};

/// The mathematical state of the classes: the parent of each known variable, the rank
/// that orders each variable below its parent, and the term of each class, keyed by
/// its root.
pub struct ClassesModel {
    pub parent: Map<u32, u32>,
    pub rank: Map<u32, nat>,
    pub bound: nat,
    pub terms: Map<u32, TermModel>,
}

/// The root of the class of `v`: follow parents until a variable is its own parent.
pub open spec fn root_in(c: ClassesModel, v: u32) -> u32
    decreases c.bound - c.rank[v],
{
    if c.parent.contains_key(v) && c.parent[v] != v && c.rank.contains_key(v) && c.rank.contains_key(
        c.parent[v],
    ) && c.rank[v] < c.rank[c.parent[v]] && c.rank[c.parent[v]] < c.bound {
        root_in(c, c.parent[v])
    } else {
        v
    }
}

/// Every known variable has a known parent of higher rank (unless it is a root), and
/// every term belongs to a root.
pub open spec fn classes_wf(c: ClassesModel) -> bool {
    &&& c.parent.dom().finite()
    &&& forall|v: u32| #[trigger]
        c.parent.contains_key(v) ==> c.rank.contains_key(v) && c.rank[v] < c.bound
    &&& forall|v: u32|
        c.parent.contains_key(v) ==> {
            &&& c.parent.contains_key(#[trigger] c.parent[v])
            &&& (c.parent[v] != v ==> c.rank[v] < c.rank[c.parent[v]])
        }
    &&& forall|r: u32| #[trigger]
        c.terms.contains_key(r) ==> c.parent.contains_key(r) && c.parent[r] == r
}

pub proof fn lemma_root(c: ClassesModel, v: u32)
    requires
        classes_wf(c),
        c.parent.contains_key(v),
    ensures
        c.parent.contains_key(root_in(c, v)),
        c.parent[root_in(c, v)] == root_in(c, v),
        root_in(c, v) != v ==> c.rank[v] < c.rank[root_in(c, v)],
    decreases c.bound - c.rank[v],
{
    if c.parent[v] != v {
        lemma_root(c, c.parent[v]);
    }
}

/// Pointing `x` straight at its root changes no root.
pub proof fn lemma_compress(c: ClassesModel, x: u32, v: u32)
    requires
        classes_wf(c),
        c.parent.contains_key(x),
        c.parent.contains_key(v),
    ensures
        root_in(ClassesModel { parent: c.parent.insert(x, root_in(c, x)), ..c }, v) == root_in(c, v),
    decreases c.bound - c.rank[v],
{
    let r = root_in(c, x);
    let c2 = ClassesModel { parent: c.parent.insert(x, r), ..c };
    lemma_root(c, x);
    assert(c.parent.contains_key(r));
    if v == x {
        if r != x {
            assert(c2.parent[r] == r);
            assert(root_in(c2, r) == r);
            assert(c.rank[r] < c.bound);
            assert(root_in(c2, x) == root_in(c2, r));
        } else {
            assert(c2.parent[x] == x);
        }
    } else if c.parent[v] != v {
        let p = c.parent[v];
        assert(c.parent.contains_key(p));
        assert(c.rank[v] < c.rank[p] && c.rank[p] < c.bound);
        lemma_compress(c, x, p);
        assert(c2.parent[v] == p);
        assert(root_in(c, v) == root_in(c, p));
        assert(root_in(c2, v) == root_in(c2, p));
    } else {
        assert(c2.parent[v] == v);
    }
}

pub proof fn lemma_compress_wf(c: ClassesModel, x: u32)
    requires
        classes_wf(c),
        c.parent.contains_key(x),
    ensures
        classes_wf(ClassesModel { parent: c.parent.insert(x, root_in(c, x)), ..c }),
{
    lemma_root(c, x);
    let r = root_in(c, x);
    let c2 = ClassesModel { parent: c.parent.insert(x, r), ..c };
    assert(c2.parent.dom() =~= c.parent.dom());
    assert forall|v: u32| c2.parent.contains_key(v) implies {
        &&& c2.parent.contains_key(#[trigger] c2.parent[v])
        &&& (c2.parent[v] != v ==> c2.rank[v] < c2.rank[c2.parent[v]])
    } by {
        assert(c.parent.contains_key(v));
        if v != x {
            assert(c.parent.contains_key(c.parent[v]));
        }
    }
    assert forall|t: u32| #[trigger] c2.terms.contains_key(t) implies c2.parent.contains_key(t) && c2.parent[t] == t by {
        assert(c.parent.contains_key(t) && c.parent[t] == t);
        if t == x {
            assert(r == x);
        }
    }
}

/// A known variable gets a new root parent; the roots of the other classes stay.
pub proof fn lemma_link(c: ClassesModel, r1: u32, r2: u32, v: u32)
    requires
        classes_wf(c),
        c.parent.contains_key(r1),
        c.parent.contains_key(r2),
        c.parent[r1] == r1,
        c.parent[r2] == r2,
        r1 != r2,
        c.parent.contains_key(v),
    ensures
        ({
            let rank = if c.rank[r1] > c.rank[r2] { c.rank } else { c.rank.insert(r1, c.rank[r2] + 1) };
            let c2 = ClassesModel {
                parent: c.parent.insert(r2, r1),
                rank: rank,
                bound: if rank[r1] + 1 > c.bound { rank[r1] + 1 } else { c.bound },
                ..c
            };
            root_in(c2, v) == if root_in(c, v) == r2 { r1 } else { root_in(c, v) }
        }),
    decreases c.bound - c.rank[v],
{
    let rank = if c.rank[r1] > c.rank[r2] { c.rank } else { c.rank.insert(r1, c.rank[r2] + 1) };
    let c2 = ClassesModel {
        parent: c.parent.insert(r2, r1),
        rank: rank,
        bound: if rank[r1] + 1 > c.bound { rank[r1] + 1 } else { c.bound },
        ..c
    };
    assert(c.rank[r1] < c.bound && c.rank[r2] < c.bound);
    assert(rank[r2] == c.rank[r2]);
    assert(rank[r1] >= c.rank[r1]);
    assert(c2.parent[r1] == r1);
    assert(root_in(c2, r1) == r1);
    if v == r2 {
        assert(rank[r2] < rank[r1]);
        assert(rank[r1] < c2.bound);
        assert(root_in(c2, r2) == root_in(c2, r1));
    } else if c.parent[v] != v {
        let p = c.parent[v];
        assert(c.parent.contains_key(p));
        assert(v != r1);
        assert(rank[v] == c.rank[v]);
        assert(rank[p] >= c.rank[p]);
        assert(c.rank[v] < c.rank[p] && c.rank[p] < c.bound);
        assert(rank[p] < c2.bound);
        lemma_link(c, r1, r2, p);
        assert(c2.parent[v] == p);
        assert(root_in(c, v) == root_in(c, p));
        assert(root_in(c2, v) == root_in(c2, p));
    } else {
        assert(c2.parent[v] == v);
    }
}

/// A new variable, its own parent, changes no other root.
pub proof fn lemma_extend(c: ClassesModel, x: u32, v: u32)
    requires
        classes_wf(c),
        !c.parent.contains_key(x),
        c.parent.contains_key(v),
    ensures
        root_in(
            ClassesModel {
                parent: c.parent.insert(x, x),
                rank: c.rank.insert(x, 0),
                bound: if c.bound == 0 { 1 } else { c.bound },
                ..c
            },
            v,
        ) == root_in(c, v),
    decreases c.bound - c.rank[v],
{
    if c.parent[v] != v {
        let p = c.parent[v];
        assert(c.parent.contains_key(p));
        lemma_extend(c, x, p);
    }
}

/// The classes after the root `r2` is put under the root `r1`, its term taken away.
pub open spec fn linked(c: ClassesModel, r1: u32, r2: u32) -> ClassesModel {
    let rank = if c.rank[r1] > c.rank[r2] { c.rank } else { c.rank.insert(r1, c.rank[r2] + 1) };
    ClassesModel {
        parent: c.parent.insert(r2, r1),
        rank: rank,
        bound: if rank[r1] + 1 > c.bound { rank[r1] + 1 } else { c.bound },
        terms: c.terms.remove(r2),
    }
}

pub proof fn lemma_linked(c: ClassesModel, r1: u32, r2: u32)
    requires
        classes_wf(c),
        c.parent.contains_key(r1),
        c.parent.contains_key(r2),
        c.parent[r1] == r1,
        c.parent[r2] == r2,
        r1 != r2,
    ensures
        classes_wf(linked(c, r1, r2)),
        linked(c, r1, r2).parent.dom() == c.parent.dom(),
        linked(c, r1, r2).parent[r1] == r1,
        forall|v: u32| #[trigger] c.parent.contains_key(v) ==> root_in(linked(c, r1, r2), v) == if root_in(c, v) == r2 { r1 } else { root_in(c, v) },
{
    let c2 = linked(c, r1, r2);
    assert(c2.parent.dom() =~= c.parent.dom());
    assert forall|v: u32| #[trigger] c.parent.contains_key(v) implies root_in(c2, v) == if root_in(c, v) == r2 { r1 } else { root_in(c, v) } by {
        lemma_link(c, r1, r2, v);
        let c3 = ClassesModel { terms: c.terms, ..c2 };
        assert(root_in(c3, v) == root_in(c2, v)) by {
            lemma_root_terms_irrelevant(c3, c2, v);
        }
    }
    assert(c.rank[r1] < c.bound && c.rank[r2] < c.bound);
    assert forall|v: u32| #[trigger] c2.parent.contains_key(v) implies c2.rank.contains_key(v) && c2.rank[v] < c2.bound by {
        assert(c.parent.contains_key(v));
    }
    assert forall|v: u32| c2.parent.contains_key(v) implies {
        &&& c2.parent.contains_key(#[trigger] c2.parent[v])
        &&& (c2.parent[v] != v ==> c2.rank[v] < c2.rank[c2.parent[v]])
    } by {
        assert(c.parent.contains_key(v));
        if v != r2 {
            assert(c.parent.contains_key(c.parent[v]));
        }
    }
    assert forall|t: u32| #[trigger] c2.terms.contains_key(t) implies c2.parent.contains_key(t) && c2.parent[t] == t by {
        assert(c.terms.contains_key(t));
    }
}

/// The root of a variable does not depend on the terms.
pub proof fn lemma_root_terms_irrelevant(a: ClassesModel, b: ClassesModel, v: u32)
    requires
        a.parent == b.parent,
        a.rank == b.rank,
        a.bound == b.bound,
    ensures
        root_in(a, v) == root_in(b, v),
    decreases a.bound - a.rank[v],
{
    if a.parent.contains_key(v) && a.parent[v] != v && a.rank.contains_key(v) && a.rank.contains_key(a.parent[v]) && a.rank[v] < a.rank[a.parent[v]] && a.rank[a.parent[v]] < a.bound {
        lemma_root_terms_irrelevant(a, b, a.parent[v]);
    }
}


/// `f` makes every known variable equal to the root of its class, and every root
/// equal to the term of its class.
pub open spec fn satisfies_classes(f: spec_fn(u32) -> TermModel, c: ClassesModel) -> bool {
    &&& forall|v: u32| #[trigger] c.parent.contains_key(v) ==> f(v) == f(root_in(c, v))
    &&& forall|r: u32| #[trigger] c.terms.contains_key(r) ==> f(r) == apply(f, c.terms[r])
}

/// `f` meets the classes and every pending constraint.
pub open spec fn holds(f: spec_fn(u32) -> TermModel, c: ClassesModel, q: Seq<(u32, TermModel)>) -> bool {
    satisfies_classes(f, c) && satisfies(f, q)
}

/// Two forests with the same terms and the same roots for the same variables (the
/// second may know more variables, each its own root) are met by the same substitutions.
pub proof fn lemma_satisfies_same_roots(f: spec_fn(u32) -> TermModel, c1: ClassesModel, c2: ClassesModel)
    requires
        classes_wf(c1),
        classes_wf(c2),
        c1.terms == c2.terms,
        forall|v: u32| #[trigger] c1.parent.contains_key(v) ==> c2.parent.contains_key(v) && root_in(c2, v) == root_in(c1, v),
        forall|v: u32| #[trigger] c2.parent.contains_key(v) ==> c1.parent.contains_key(v) || root_in(c2, v) == v,
    ensures
        satisfies_classes(f, c1) <==> satisfies_classes(f, c2),
{
    if satisfies_classes(f, c1) {
        assert forall|v: u32| #[trigger] c2.parent.contains_key(v) implies f(v) == f(root_in(c2, v)) by {
            if c1.parent.contains_key(v) {
                assert(f(v) == f(root_in(c1, v)));
            }
        }
    }
    if satisfies_classes(f, c2) {
        assert forall|v: u32| #[trigger] c1.parent.contains_key(v) implies f(v) == f(root_in(c1, v)) by {
            assert(c2.parent.contains_key(v));
            assert(f(v) == f(root_in(c2, v)));
        }
    }
}

/// Putting the root `r2` under the root `r1` (its term taken away) is met exactly by the
/// substitutions that meet the classes without that term and make `r1` and `r2` equal.
pub proof fn lemma_satisfies_linked(f: spec_fn(u32) -> TermModel, c: ClassesModel, r1: u32, r2: u32)
    requires
        classes_wf(c),
        c.parent.contains_key(r1),
        c.parent.contains_key(r2),
        c.parent[r1] == r1,
        c.parent[r2] == r2,
        r1 != r2,
    ensures
        satisfies_classes(f, linked(c, r1, r2)) <==> (satisfies_classes(f, ClassesModel { terms: c.terms.remove(r2), ..c }) && f(r1) == f(r2)),
{
    let c2 = linked(c, r1, r2);
    let cm = ClassesModel { terms: c.terms.remove(r2), ..c };
    lemma_linked(c, r1, r2);
    assert forall|v: u32| #[trigger] c.parent.contains_key(v) implies root_in(cm, v) == root_in(c, v) by {
        lemma_root_terms_irrelevant(cm, c, v);
    }
    assert(root_in(c, r1) == r1);
    assert(root_in(c, r2) == r2);
    assert(c.parent.contains_key(r2));
    assert(root_in(c2, r2) == r1);
    if satisfies_classes(f, c2) {
        assert(f(r2) == f(root_in(c2, r2)));
        assert forall|v: u32| #[trigger] cm.parent.contains_key(v) implies f(v) == f(root_in(cm, v)) by {
            assert(c2.parent.contains_key(v));
            assert(f(v) == f(root_in(c2, v)));
        }
        assert forall|r: u32| #[trigger] cm.terms.contains_key(r) implies f(r) == apply(f, cm.terms[r]) by {
            assert(c2.terms.contains_key(r));
        }
    }
    if satisfies_classes(f, cm) && f(r1) == f(r2) {
        assert forall|v: u32| #[trigger] c2.parent.contains_key(v) implies f(v) == f(root_in(c2, v)) by {
            assert(cm.parent.contains_key(v));
            assert(f(v) == f(root_in(cm, v)));
        }
        assert forall|r: u32| #[trigger] c2.terms.contains_key(r) implies f(r) == apply(f, c2.terms[r]) by {
            assert(cm.terms.contains_key(r));
        }
    }
}


/// The classes are met exactly when they are met without the term of the root `r` and
/// `r` equals that term.
pub proof fn lemma_satisfies_without_term(f: spec_fn(u32) -> TermModel, c: ClassesModel, r: u32)
    requires
        c.terms.contains_key(r),
    ensures
        satisfies_classes(f, c) <==> (satisfies_classes(f, ClassesModel { terms: c.terms.remove(r), ..c }) && f(r) == apply(f, c.terms[r])),
{
    let cm = ClassesModel { terms: c.terms.remove(r), ..c };
    assert forall|v: u32| #[trigger] c.parent.contains_key(v) implies root_in(cm, v) == root_in(c, v) by {
        lemma_root_terms_irrelevant(cm, c, v);
    }
    if satisfies_classes(f, c) {
        assert forall|t: u32| #[trigger] cm.terms.contains_key(t) implies f(t) == apply(f, cm.terms[t]) by {
            assert(c.terms.contains_key(t));
        }
        assert forall|v: u32| #[trigger] cm.parent.contains_key(v) implies f(v) == f(root_in(cm, v)) by {
            assert(c.parent.contains_key(v));
        }
    }
    if satisfies_classes(f, cm) && f(r) == apply(f, c.terms[r]) {
        assert forall|t: u32| #[trigger] c.terms.contains_key(t) implies f(t) == apply(f, c.terms[t]) by {
            if t != r {
                assert(cm.terms.contains_key(t));
            }
        }
        assert forall|v: u32| #[trigger] c.parent.contains_key(v) implies f(v) == f(root_in(c, v)) by {
            assert(cm.parent.contains_key(v));
        }
    }
}


pub proof fn lemma_difference_shrinks(s: Set<u32>, v: Set<u32>, r: u32)
    requires
        s.finite(),
        s.contains(r),
        !v.contains(r),
    ensures
        s.difference(v.insert(r)).len() < s.difference(v).len(),
{
    assert(s.difference(v.insert(r)) =~= s.difference(v).remove(r));
    vstd::set_lib::lemma_set_subset_finite(s, s.difference(v));
}

/// The term `t` with every variable whose class has a term replaced by that term,
/// itself resolved in the same way; a class met again on the way (one of `visiting`)
/// is a cycle.
pub open spec fn resolution(c: ClassesModel, t: TermModel, visiting: Set<u32>) -> Result<TermModel, UnificationError>
    decreases c.terms.dom().difference(visiting).len(), t,
{
    match t {
        TermModel::Variable(x) => {
            if c.parent.contains_key(x) && c.terms.contains_key(root_in(c, x)) {
                if visiting.contains(root_in(c, x)) {
                    Err(UnificationError::CyclicReference)
                } else if c.terms.dom().finite() {
                    proof {
                        lemma_difference_shrinks(c.terms.dom(), visiting, root_in(c, x));
                    }
                    resolution(c, c.terms[root_in(c, x)], visiting.insert(root_in(c, x)))
                } else {
                    Ok(t)
                }
            } else {
                Ok(t)
            }
        },
        TermModel::List(items) => match resolution_all(c, items, visiting) {
            Ok(us) => Ok(TermModel::List(us)),
            Err(e) => Err(e),
        },
        TermModel::Literal(l) => match l.structure.arguments {
            Some(a) => match resolution_all(c, a, visiting) {
                Ok(us) => Ok(
                    TermModel::Literal(
                        LiteralModel {
                            negated: l.negated,
                            structure: StructureModel { functor: l.structure.functor, arguments: Some(us) },
                        },
                    ),
                ),
                Err(e) => Err(e),
            },
            None => Ok(t),
        },
        _ => Ok(t),
    }
}

/// [`resolution`] of each term of a list, from the first; the first failure stops it.
pub open spec fn resolution_all(c: ClassesModel, ts: Seq<TermModel>, visiting: Set<u32>) -> Result<Seq<TermModel>, UnificationError>
    decreases c.terms.dom().difference(visiting).len(), ts,
{
    if ts.len() == 0 {
        Ok(Seq::empty())
    } else {
        match resolution_all(c, ts.drop_last(), visiting) {
            Err(e) => Err(e),
            Ok(us) => match resolution(c, ts.last(), visiting) {
                Err(e) => Err(e),
                Ok(u) => Ok(us.push(u)),
            },
        }
    }
}

/// No class holds a bare variable as its term.
pub open spec fn terms_structured(c: ClassesModel) -> bool {
    forall|r: u32| #[trigger] c.terms.contains_key(r) ==> !(c.terms[r] is Variable)
}

/// Variables grouped in classes.
pub(crate) struct EquivalenceClasses {
    parent: BTreeMap<u32, u32>,
    root_to_term: BTreeMap<u32, Term>,
    /// Every variable of `parent`, in increasing order.
    known: Vec<u32>,
    rank: Ghost<Map<u32, nat>>,
    bound: Ghost<nat>,
}

pub open spec fn increasing(s: Seq<u32>) -> bool {
    forall|i: int, j: int| 0 <= i < j < s.len() ==> s[i] < s[j]
}

impl EquivalenceClasses {
    pub closed spec fn model(&self) -> ClassesModel {
        ClassesModel {
            parent: self.parent@,
            rank: self.rank@,
            bound: self.bound@,
            terms: self.root_to_term@.map_values(|t: Term| t@),
        }
    }

    pub closed spec fn known_vars(&self) -> Seq<u32> {
        self.known@
    }

    pub closed spec fn wf(&self) -> bool {
        &&& classes_wf(self.model())
        &&& terms_structured(self.model())
        &&& self.root_to_term@.dom() == self.model().terms.dom()
        &&& increasing(self.known@)
        &&& self.known@.to_set() == self.parent@.dom()
    }

    pub fn new() -> (r: Self)
        ensures
            r.wf(),
            r.known_vars() == Seq::<u32>::empty(),
            r.model().terms == Map::<u32, TermModel>::empty(),
    {
        let r = EquivalenceClasses {
            parent: BTreeMap::new(),
            root_to_term: BTreeMap::new(),
            known: Vec::new(),
            rank: Ghost(Map::empty()),
            bound: Ghost(0),
        };
        assert(r.known@.to_set() =~= r.parent@.dom());
        assert(r.model().terms =~= Map::<u32, TermModel>::empty());
        r
    }
}

/// Inserts `x` into an increasing sequence that does not hold it.
fn insert_sorted(known: &mut Vec<u32>, x: u32)
    requires
        increasing(old(known)@),
        !old(known)@.contains(x),
    ensures
        increasing(final(known)@),
        final(known)@.to_set() == old(known)@.to_set().insert(x),
{
    let mut i: usize = 0;
    while i < known.len() && known[i] < x
        invariant
            i <= known@.len(),
            known@ == old(known)@,
            forall|j: int| 0 <= j < i ==> known@[j] < x,
        decreases known.len() - i,
    {
        i += 1;
    }
    known.insert(i, x);
    proof {
        let k = final(known)@;
        assert forall|a: int, b: int| 0 <= a < b < k.len() implies k[a] < k[b] by {
            if i < old(known)@.len() {
                assert(old(known)@[i as int] != x);
                assert(old(known)@[i as int] > x);
            }
        }
        let o = old(known)@;
        assert(k == o.insert(i as int, x));
        assert forall|y: u32| k.to_set().contains(y) <==> o.to_set().insert(x).contains(y) by {
            if k.contains(y) {
                let j = choose|j: int| 0 <= j < k.len() && k[j] == y;
                if j < i {
                    assert(o[j] == y);
                } else if j > i {
                    assert(o[j - 1] == y);
                }
            }
            if o.contains(y) {
                let j = choose|j: int| 0 <= j < o.len() && o[j] == y;
                if j < i {
                    assert(k[j] == y);
                } else {
                    assert(k[j + 1] == y);
                }
            }
            if y == x {
                assert(k[i as int] == x);
            }
        }
        assert(k.to_set() =~= o.to_set().insert(x));
    }
}

impl EquivalenceClasses {
    /// Makes `var` known: a new variable is a class of its own, without a term.
    fn ensure_known(&mut self, var: u32)
        requires
            old(self).wf(),
        ensures
            final(self).wf(),
            final(self).model().parent.dom() == old(self).model().parent.dom().insert(var),
            final(self).model().terms == old(self).model().terms,
            old(self).model().parent.contains_key(var) ==> final(self).model().parent == old(self).model().parent,
            forall|v: u32| #[trigger] old(self).model().parent.contains_key(v) ==> root_in(final(self).model(), v) == root_in(old(self).model(), v),
            root_in(final(self).model(), var) == if old(self).model().parent.contains_key(var) { root_in(old(self).model(), var) } else { var },
    {
        if !self.parent.contains_key(&var) {
            let ghost c = self.model();
            self.parent.insert(var, var);
            proof {
                assert(!self.known@.contains(var)) by {
                    if self.known@.contains(var) {
                        assert(self.known@.to_set().contains(var));
                    }
                }
            }
            insert_sorted(&mut self.known, var);
            self.rank = Ghost(self.rank@.insert(var, 0));
            self.bound = Ghost(if self.bound@ == 0 { 1nat } else { self.bound@ });
            proof {
                let c2 = self.model();
                assert(c2.parent =~= c.parent.insert(var, var));
                assert(c2.terms =~= c.terms);
                assert forall|v: u32| #[trigger] c.parent.contains_key(v) implies root_in(c2, v) == root_in(c, v) by {
                    lemma_extend(c, var, v);
                }
                assert(c2.parent[var] == var);
                assert forall|v: u32| c2.parent.contains_key(v) implies {
                    &&& c2.parent.contains_key(#[trigger] c2.parent[v])
                    &&& (c2.parent[v] != v ==> c2.rank[v] < c2.rank[c2.parent[v]])
                } by {
                    if v != var {
                        assert(c.parent.contains_key(v));
                        assert(c.parent.contains_key(c.parent[v]));
                    }
                }
                assert(self.root_to_term@.dom() == c2.terms.dom());
            }
        }
    }

    /// The root of the class of `var`; every variable on the way is pointed straight at
    /// it, which changes no root.
    fn find_root(&mut self, var: u32) -> (r: u32)
        requires
            old(self).wf(),
            old(self).model().parent.contains_key(var),
        ensures
            final(self).wf(),
            r == root_in(old(self).model(), var),
            final(self).model().parent.dom() == old(self).model().parent.dom(),
            final(self).model().terms == old(self).model().terms,
            final(self).known_vars() == old(self).known_vars(),
            final(self).model().rank == old(self).model().rank,
            final(self).model().bound == old(self).model().bound,
            final(self).model().parent[r] == r,
            forall|v: u32| #[trigger] old(self).model().parent.contains_key(v) ==> root_in(final(self).model(), v) == root_in(old(self).model(), v),
        decreases old(self).bound@ - old(self).rank@[var],
    {
        let ghost c0 = self.model();
        let p = *self.parent.get(&var).unwrap();
        if p != var {
            proof {
                assert(c0.parent.contains_key(c0.parent[var]));
                assert(c0.rank[var] < c0.rank[p] && c0.rank[p] < c0.bound);
            }
            let root = self.find_root(p);
            let ghost c1 = self.model();
            proof {
                assert(root == root_in(c0, var));
                assert(root_in(c1, var) == root_in(c0, var));
                lemma_compress_wf(c1, var);
                assert forall|v: u32| #[trigger] c1.parent.contains_key(v) implies root_in(
                    ClassesModel { parent: c1.parent.insert(var, root_in(c1, var)), ..c1 },
                    v,
                ) == root_in(c1, v) by {
                    lemma_compress(c1, var, v);
                }
                lemma_root(c1, var);
            }
            self.parent.insert(var, root);
            proof {
                let c2 = self.model();
                assert(c2 == ClassesModel { parent: c1.parent.insert(var, root_in(c1, var)), ..c1 });
                assert(c2.parent.dom() =~= c0.parent.dom());
                assert(c2.parent[root] == root) by {
                    if root != var {
                        assert(c1.parent[root] == root);
                    }
                }
            }
            root
        } else {
            var
        }
    }

    /// The root of the class of `var`, if `var` is known.
    fn root_of(&self, var: u32) -> (r: Option<u32>)
        requires
            self.wf(),
        ensures
            r == if self.model().parent.contains_key(var) { Some(root_in(self.model(), var)) } else { None::<u32> },
    {
        let ghost c = self.model();
        let mut current = var;
        loop
            invariant
                self.wf(),
                c == self.model(),
                c.parent.contains_key(var) ==> c.parent.contains_key(current) && root_in(c, current) == root_in(c, var),
                !c.parent.contains_key(var) ==> current == var,
            decreases c.bound - (if c.rank.contains_key(current) { c.rank[current] } else { 0 }),
        {
            match self.parent.get(&current) {
                Some(pr) => {
                    let p = *pr;
                    if p == current {
                        return Some(current);
                    }
                    proof {
                        assert(c.parent.contains_key(c.parent[current]));
                        assert(c.rank[current] < c.rank[p] && c.rank[p] < c.bound);
                    }
                    current = p;
                },
                None => {
                    return None;
                },
            }
        }
    }
}


impl EquivalenceClasses {
    /// Gives the class of the root `root` the term `term`; when it has one already, the
    /// two terms must be equal, and the constraints of that go to the queue.
    fn add_term(&mut self, root: u32, term: Term, queue: &mut Vec<BindingConstraint>) -> (r: Result<(), UnificationError>)
        requires
            old(self).wf(),
            old(self).model().parent.contains_key(root),
            old(self).model().parent[root] == root,
            !(term@ is Variable),
        ensures
            final(self).wf(),
            final(self).model().parent == old(self).model().parent,
            final(self).model().rank == old(self).model().rank,
            final(self).model().bound == old(self).model().bound,
            final(self).known_vars() == old(self).known_vars(),
            r is Ok ==> forall|f: spec_fn(u32) -> TermModel| #[trigger] holds(f, final(self).model(), constraints_model(final(queue)@)) <==> (holds(f, old(self).model(), constraints_model(old(queue)@)) && f(root) == apply(f, term@)),
            r matches Err(e) ==> e != UnificationError::CyclicReference && e != UnificationError::StepLimitReached && forall|f: spec_fn(u32) -> TermModel| !(#[trigger] satisfies_classes(f, old(self).model()) && f(root) == apply(f, term@)),
            !old(self).model().terms.contains_key(root) ==> r is Ok && final(queue)@ == old(queue)@
                && final(self).model().terms == old(self).model().terms.insert(root, term@),
            ground_class_terms(old(self).model()) && ground(term@) ==> ground_class_terms(final(self).model()) && final(queue)@ == old(queue)@,
            forall|f: spec_fn(u32) -> TermModel| #[trigger] holds(f, old(self).model(), constraints_model(old(queue)@)) && f(root) == apply(f, term@)
                ==> weight(f, constraints_model(final(queue)@)) < weight(f, constraints_model(old(queue)@)) + term_size(apply(f, term@)),
    {
        let ghost c = self.model();
        let ghost q = constraints_model(queue@);
        match self.root_to_term.get(&root) {
            Some(t1) => {
                let ghost t1v = t1@;
                assert(c.terms.contains_key(root) && c.terms[root] == t1v);
                match t1.collect_constraints(&term) {
                    Ok(cs) => {
                        let mut cs = cs;
                        let ghost csv = constraints_model(cs@);
                        proof {
                            if ground_class_terms(c) && ground(term@) {
                                lemma_ground_side_constraints(t1v, term@);
                                assert(csv.len() == 0);
                                assert(cs@.len() == 0);
                            }
                        }
                        let ghost q_before = queue@;
                        queue.append(&mut cs);
                        proof {
                            if ground_class_terms(c) && ground(term@) {
                                assert(queue@ =~= q_before);
                            }
                            assert(constraints_model(queue@) =~= q + csv);
                            assert forall|f: spec_fn(u32) -> TermModel| #[trigger] holds(f, c, q) && f(root) == apply(f, term@)
                                implies weight(f, constraints_model(queue@)) < weight(f, q) + term_size(apply(f, term@)) by {
                                assert(c.terms.contains_key(root));
                                assert(f(root) == apply(f, c.terms[root]));
                                assert(!(t1v is Variable));
                                lemma_constraints_weight(f, t1v, term@);
                                lemma_weight_concat(f, q, csv);
                            }
                        }
                        proof {
                            assert(constraints_model(queue@) =~= q + csv);
                            assert forall|f: spec_fn(u32) -> TermModel| #[trigger] holds(f, self.model(), constraints_model(queue@)) <==> (holds(f, c, q) && f(root) == apply(f, term@)) by {
                                lemma_satisfies_concat(f, q, csv);
                                lemma_constraints_exact(f, t1v, term@);
                            }
                        }
                        Ok(())
                    },
                    Err(e) => {
                        proof {
                            lemma_constraints_error_kind(t1v, term@);
                            assert forall|f: spec_fn(u32) -> TermModel| !(#[trigger] satisfies_classes(f, c) && f(root) == apply(f, term@)) by {
                                lemma_constraints_clash(f, t1v, term@);
                            }
                        }
                        Err(e)
                    },
                }
            },
            None => {
                let ghost tv = term@;
                self.root_to_term.insert(root, term);
                proof {
                    let c2 = self.model();
                    assert(c2.terms =~= c.terms.insert(root, tv));
                    assert(c2.parent == c.parent);
                    assert forall|v: u32| #[trigger] c2.parent.contains_key(v) implies root_in(c2, v) == root_in(c, v) by {
                        lemma_root_terms_irrelevant(c2, c, v);
                    }
                    assert forall|f: spec_fn(u32) -> TermModel| #[trigger] holds(f, c2, constraints_model(queue@)) <==> (holds(f, c, q) && f(root) == apply(f, tv)) by {
                        if holds(f, c, q) && f(root) == apply(f, tv) {
                            assert forall|r: u32| #[trigger] c2.terms.contains_key(r) implies f(r) == apply(f, c2.terms[r]) by {
                                if r != root {
                                    assert(c.terms.contains_key(r));
                                }
                            }
                        }
                        if holds(f, c2, constraints_model(queue@)) {
                            assert(c2.terms.contains_key(root));
                            assert forall|r: u32| #[trigger] c.terms.contains_key(r) implies f(r) == apply(f, c.terms[r]) by {
                                assert(c2.terms.contains_key(r));
                            }
                        }
                    }
                    assert forall|t: u32| #[trigger] c2.terms.contains_key(t) implies c2.parent.contains_key(t) && c2.parent[t] == t by {
                        if t != root {
                            assert(c.terms.contains_key(t));
                        }
                    }
                    assert(self.root_to_term@.dom() == c2.terms.dom());
                }
                Ok(())
            },
        }
    }
}


impl EquivalenceClasses {
    /// Makes `var` known and returns the root of its class.
    fn known_root(&mut self, var: u32) -> (r: u32)
        requires
            old(self).wf(),
        ensures
            final(self).wf(),
            final(self).model().parent.dom() == old(self).model().parent.dom().insert(var),
            final(self).model().terms == old(self).model().terms,
            forall|v: u32| #[trigger] old(self).model().parent.contains_key(v) ==> root_in(final(self).model(), v) == root_in(old(self).model(), v),
            r == root_in(final(self).model(), var),
            final(self).model().parent[r] == r,
            final(self).model().parent.contains_key(r),
            !old(self).model().parent.contains_key(var) ==> r == var,
            forall|f: spec_fn(u32) -> TermModel| #[trigger] satisfies_classes(f, final(self).model()) <==> satisfies_classes(f, old(self).model()),
    {
        let ghost c0 = self.model();
        self.ensure_known(var);
        let ghost c1 = self.model();
        let r = self.find_root(var);
        proof {
            let c2 = self.model();
            assert forall|f: spec_fn(u32) -> TermModel| #[trigger] satisfies_classes(f, c2) <==> satisfies_classes(f, c0) by {
                assert forall|v: u32| #[trigger] c0.parent.contains_key(v) implies c2.parent.contains_key(v) && root_in(c2, v) == root_in(c0, v) by {
                    assert(c1.parent.contains_key(v));
                }
                assert forall|v: u32| #[trigger] c2.parent.contains_key(v) implies c0.parent.contains_key(v) || root_in(c2, v) == v by {
                    if !c0.parent.contains_key(v) {
                        assert(v == var);
                        assert(c1.parent.contains_key(v));
                    }
                }
                lemma_satisfies_same_roots(f, c0, c2);
            }
            assert(c1.parent.contains_key(var));
            assert forall|v: u32| #[trigger] c0.parent.contains_key(v) implies root_in(c2, v) == root_in(c0, v) by {
                assert(c1.parent.contains_key(v));
            }
            lemma_root(c2, var);
        }
        r
    }

    /// Puts the class of the root `root2` under the root `root1`; when both had a term,
    /// the two terms must be equal, and the constraints of that go to the queue.
    fn link(&mut self, root1: u32, root2: u32, queue: &mut Vec<BindingConstraint>) -> (r: Result<(), UnificationError>)
        requires
            old(self).wf(),
            old(self).model().parent.contains_key(root1),
            old(self).model().parent.contains_key(root2),
            old(self).model().parent[root1] == root1,
            old(self).model().parent[root2] == root2,
            root1 != root2,
        ensures
            final(self).wf(),
            final(self).model().parent.dom() == old(self).model().parent.dom(),
            r is Ok ==> forall|f: spec_fn(u32) -> TermModel| #[trigger] holds(f, final(self).model(), constraints_model(final(queue)@)) <==> (holds(f, old(self).model(), constraints_model(old(queue)@)) && f(root1) == f(root2)),
            r matches Err(e) ==> e != UnificationError::CyclicReference && e != UnificationError::StepLimitReached && forall|f: spec_fn(u32) -> TermModel| !(#[trigger] holds(f, old(self).model(), constraints_model(old(queue)@)) && f(root1) == f(root2)),
            forall|f: spec_fn(u32) -> TermModel| #[trigger] holds(f, old(self).model(), constraints_model(old(queue)@)) && f(root1) == f(root2)
                ==> weight(f, constraints_model(final(queue)@)) < weight(f, constraints_model(old(queue)@)) + term_size(f(root2)),
            ground_class_terms(old(self).model()) ==> ground_class_terms(final(self).model()) && final(queue)@ == old(queue)@,
    {
        let ghost c2 = self.model();
        self.parent.insert(root2, root1);
        self.rank = Ghost(if self.rank@[root1] > self.rank@[root2] { self.rank@ } else { self.rank@.insert(root1, self.rank@[root2] + 1) });
        self.bound = Ghost(if self.rank@[root1] + 1 > self.bound@ { (self.rank@[root1] + 1) as nat } else { self.bound@ });
        let t2 = self.root_to_term.remove(&root2);
        let ghost c3 = self.model();
        proof {
            assert(c3.parent == c2.parent.insert(root2, root1));
            assert(c3.terms =~= c2.terms.remove(root2));
            assert(c3 == linked(c2, root1, root2));
            lemma_linked(c2, root1, root2);
            assert(c3.parent.dom() =~= c2.parent.dom());
            assert(self.root_to_term@.dom() == c3.terms.dom());
            assert forall|f: spec_fn(u32) -> TermModel| #[trigger] satisfies_classes(f, c3) <==> (satisfies_classes(f, ClassesModel { terms: c2.terms.remove(root2), ..c2 }) && f(root1) == f(root2)) by {
                lemma_satisfies_linked(f, c2, root1, root2);
            }
        }
        match t2 {
            Some(t2) => {
                let ghost t2v = t2@;
                proof {
                    assert(c2.terms.contains_key(root2) && c2.terms[root2] == t2v);
                    assert forall|f: spec_fn(u32) -> TermModel| #[trigger] satisfies_classes(f, c2) <==> (satisfies_classes(f, ClassesModel { terms: c2.terms.remove(root2), ..c2 }) && f(root2) == apply(f, t2v)) by {
                        lemma_satisfies_without_term(f, c2, root2);
                    }
                }
                let ghost q = constraints_model(queue@);
                proof {
                    if ground_class_terms(c2) {
                        assert(ground(t2v));
                        assert forall|r: u32| #[trigger] c3.terms.contains_key(r) implies ground(c3.terms[r]) by {
                            assert(c2.terms.contains_key(r));
                        }
                    }
                }
                let res = self.add_term(root1, t2, queue);
                proof {
                    assert forall|f: spec_fn(u32) -> TermModel| #[trigger] holds(f, c2, q) && f(root1) == f(root2)
                        implies weight(f, constraints_model(queue@)) < weight(f, q) + term_size(f(root2)) by {
                        assert(satisfies_classes(f, c2));
                        assert(satisfies_classes(f, c3));
                        assert(holds(f, c3, q));
                        assert(f(root2) == apply(f, t2v));
                    }
                }
                proof {
                    if res is Err {
                        assert forall|f: spec_fn(u32) -> TermModel| !(#[trigger] holds(f, c2, q) && f(root1) == f(root2)) by {
                            if holds(f, c2, q) && f(root1) == f(root2) {
                                assert(satisfies_classes(f, c2));
                                assert(satisfies_classes(f, c3));
                                assert(!(satisfies_classes(f, c3) && f(root1) == apply(f, t2v)));
                            }
                        }
                    }
                }
                res
            },
            None => {
                proof {
                    assert(c2.terms.remove(root2) =~= c2.terms);
                    assert forall|f: spec_fn(u32) -> TermModel| #[trigger] holds(f, c2, constraints_model(queue@)) && f(root1) == f(root2)
                        implies weight(f, constraints_model(queue@)) < weight(f, constraints_model(queue@)) + term_size(f(root2)) by {
                        lemma_term_size_positive(f(root2));
                    }
                    if ground_class_terms(c2) {
                        assert forall|r: u32| #[trigger] c3.terms.contains_key(r) implies ground(c3.terms[r]) by {
                            assert(c2.terms.contains_key(r));
                        }
                    }
                }
                Ok(())
            },
        }
    }

    /// Puts `var1` and `var2` in one class; when both classes had a term, the two terms
    /// must be equal, and the constraints of that go to the queue.
    fn merge(&mut self, var1: u32, var2: u32, queue: &mut Vec<BindingConstraint>) -> (r: Result<(), UnificationError>)
        requires
            old(self).wf(),
        ensures
            final(self).wf(),
            final(self).model().parent.dom() == old(self).model().parent.dom().insert(var1).insert(var2),
            r is Ok ==> forall|f: spec_fn(u32) -> TermModel| #[trigger] holds(f, final(self).model(), constraints_model(final(queue)@)) <==> (holds(f, old(self).model(), constraints_model(old(queue)@)) && f(var1) == f(var2)),
            r matches Err(e) ==> e != UnificationError::CyclicReference && e != UnificationError::StepLimitReached && forall|f: spec_fn(u32) -> TermModel| !(#[trigger] holds(f, old(self).model(), constraints_model(old(queue)@)) && f(var1) == f(var2)),
            forall|f: spec_fn(u32) -> TermModel| #[trigger] holds(f, old(self).model(), constraints_model(old(queue)@)) && f(var1) == f(var2)
                ==> weight(f, constraints_model(final(queue)@)) < weight(f, constraints_model(old(queue)@)) + term_size(f(var2)),
            ground_class_terms(old(self).model()) ==> ground_class_terms(final(self).model()) && final(queue)@ == old(queue)@,
    {
        let ghost c0 = self.model();
        let root1 = self.known_root(var1);
        let ghost c1 = self.model();
        let root2 = self.known_root(var2);
        let ghost c2 = self.model();
        proof {
            assert(c1.parent.contains_key(var1));
            assert(c1.parent.contains_key(root1));
            assert(root_in(c2, root1) == root_in(c1, root1));
            lemma_root(c1, root1);
            lemma_root(c2, root1);
            assert(root_in(c2, var1) == root1);
            assert(c2.parent.contains_key(var2));
            assert forall|f: spec_fn(u32) -> TermModel| #[trigger] satisfies_classes(f, c2) implies f(var1) == f(root1) && f(var2) == f(root2) by {
                assert(c2.parent.contains_key(var1));
            }
            assert(c2.parent.dom() =~= c0.parent.dom().insert(var1).insert(var2));
        }
        if root1 == root2 {
            proof {
                assert forall|f: spec_fn(u32) -> TermModel| #[trigger] holds(f, c0, constraints_model(queue@)) && f(var1) == f(var2)
                    implies weight(f, constraints_model(queue@)) < weight(f, constraints_model(queue@)) + term_size(f(var2)) by {
                    lemma_term_size_positive(f(var2));
                }
            }
            return Ok(());
        }
        let ghost q = constraints_model(queue@);
        let res = self.link(root1, root2, queue);
        proof {
            assert forall|f: spec_fn(u32) -> TermModel| #[trigger] holds(f, c0, q) && f(var1) == f(var2)
                implies weight(f, constraints_model(queue@)) < weight(f, q) + term_size(f(var2)) by {
                assert(satisfies_classes(f, c0));
                assert(satisfies_classes(f, c1));
                assert(satisfies_classes(f, c2));
                assert(holds(f, c2, q));
            }
        }
        proof {
            if res is Err {
                assert forall|f: spec_fn(u32) -> TermModel| !(#[trigger] holds(f, c0, q) && f(var1) == f(var2)) by {
                    if holds(f, c0, q) && f(var1) == f(var2) {
                        assert(satisfies_classes(f, c0));
                        assert(satisfies_classes(f, c1));
                        assert(satisfies_classes(f, c2));
                        assert(holds(f, c2, q));
                    }
                }
            }
        }
        res
    }
}


impl EquivalenceClasses {
    /// Takes in one constraint: a variable for a variable puts the two in one class; a
    /// variable for another term gives that term to the class of the variable.
    fn register(&mut self, constraint: BindingConstraint, queue: &mut Vec<BindingConstraint>) -> (r: Result<(), UnificationError>)
        requires
            old(self).wf(),
        ensures
            final(self).wf(),
            old(self).model().parent.dom().subset_of(final(self).model().parent.dom()),
            r is Ok ==> forall|f: spec_fn(u32) -> TermModel| #[trigger] holds(f, final(self).model(), constraints_model(final(queue)@)) <==> (holds(f, old(self).model(), constraints_model(old(queue)@)) && f(constraint@.0) == apply(f, constraint@.1)),
            r matches Err(e) ==> e != UnificationError::CyclicReference && e != UnificationError::StepLimitReached && forall|f: spec_fn(u32) -> TermModel| !(#[trigger] holds(f, old(self).model(), constraints_model(old(queue)@)) && f(constraint@.0) == apply(f, constraint@.1)),
            fresh_term(old(self).model(), constraint@) ==> r is Ok && final(queue)@ == old(queue)@,
            fresh_term(old(self).model(), constraint@) ==> final(self).model().parent.dom() == old(self).model().parent.dom().insert(constraint@.0),
            fresh_term(old(self).model(), constraint@) ==> final(self).model().terms == old(self).model().terms.insert(constraint@.0, constraint@.1),
            ground_class_terms(old(self).model()) && (constraint@.1 is Variable || ground(constraint@.1))
                ==> ground_class_terms(final(self).model()) && final(queue)@ == old(queue)@,
            forall|f: spec_fn(u32) -> TermModel| #[trigger] holds(f, old(self).model(), constraints_model(old(queue)@)) && f(constraint@.0) == apply(f, constraint@.1)
                ==> weight(f, constraints_model(final(queue)@)) < weight(f, constraints_model(old(queue)@)) + term_size(apply(f, constraint@.1)),
    {
        let ghost c0 = self.model();
        let ghost q = constraints_model(queue@);
        let ghost cv = constraint@;
        let BindingConstraint { variable, value } = constraint;
        match value {
            Term::Variable(alias) => {
                assert(!fresh_term(c0, cv));
                self.merge(variable.0, alias.id.0, queue)
            },
            value => {
                let root = self.known_root(variable.0);
                let ghost c1 = self.model();
                proof {
                    assert(c1.parent.contains_key(variable.0));
                    assert forall|f: spec_fn(u32) -> TermModel| #[trigger] satisfies_classes(f, c1) implies f(variable.0) == f(root) by {
                        assert(c1.parent.contains_key(variable.0));
                    }
                }
                let ghost vv = value@;
                proof {
                    if fresh_term(c0, cv) {
                        assert(root == variable.0);
                        assert(!c1.terms.contains_key(root));
                    }
                }
                let res = self.add_term(root, value, queue);
                proof {
                    assert(cv == (variable.0, vv));
                    assert forall|f: spec_fn(u32) -> TermModel| #[trigger] holds(f, c0, q) && f(cv.0) == apply(f, cv.1)
                        implies weight(f, constraints_model(queue@)) < weight(f, q) + term_size(apply(f, cv.1)) by {
                        assert(satisfies_classes(f, c0));
                        assert(satisfies_classes(f, c1));
                        assert(holds(f, c1, q));
                    }
                    if res is Err {
                        assert forall|f: spec_fn(u32) -> TermModel| !(#[trigger] holds(f, c0, q) && f(cv.0) == apply(f, cv.1)) by {
                            if holds(f, c0, q) && f(cv.0) == apply(f, cv.1) {
                                assert(satisfies_classes(f, c0));
                                assert(satisfies_classes(f, c1));
                            }
                        }
                    }
                    assert(c0.parent.dom().subset_of(self.model().parent.dom()));
                }
                res
            },
        }
    }
}

/// A term without variables is resolved as it is, with no class met.
pub proof fn lemma_resolution_ground(c: ClassesModel, t: TermModel, vis: Set<u32>)
    requires
        ground(t),
    ensures
        resolution(c, t, vis) is Ok,
    decreases c.terms.dom().difference(vis).len(), t,
{
    match t {
        TermModel::List(items) => {
            lemma_resolution_all_ground(c, items, vis);
        },
        TermModel::Literal(l) => match l.structure.arguments {
            Some(a) => {
                lemma_resolution_all_ground(c, a, vis);
            },
            None => {},
        },
        _ => {},
    }
}

pub proof fn lemma_resolution_all_ground(c: ClassesModel, ts: Seq<TermModel>, vis: Set<u32>)
    requires
        all_ground(ts),
    ensures
        resolution_all(c, ts, vis) is Ok,
    decreases c.terms.dom().difference(vis).len(), ts,
{
    if ts.len() > 0 {
        let n = ts.len() - 1;
        assert(ts.take(n + 1) =~= ts);
        lemma_all_ground_take(ts, n);
        assert(ts.take(n) =~= ts.drop_last());
        assert(ts[n] == ts.last());
        lemma_resolution_all_ground(c, ts.drop_last(), vis);
        lemma_resolution_ground(c, ts.last(), vis);
    }
}

/// Every class term holds no variable.
pub open spec fn ground_class_terms(c: ClassesModel) -> bool {
    forall|r: u32| #[trigger] c.terms.contains_key(r) ==> ground(c.terms[r])
}

/// A constraint that gives a term that is no variable to a variable the classes do not
/// know yet.
pub open spec fn fresh_term(c: ClassesModel, cv: (u32, TermModel)) -> bool {
    !(cv.1 is Variable) && !c.parent.contains_key(cv.0) && !c.terms.contains_key(cv.0)
}

/// Collects constraints and solves them together.
pub(crate) struct ConstraintSolver {
    classes: EquivalenceClasses,
    queue: Vec<BindingConstraint>,
    /// Every constraint handed in so far.
    given: Ghost<Seq<(u32, TermModel)>>,
}

impl ConstraintSolver {
    pub closed spec fn given(&self) -> Seq<(u32, TermModel)> {
        self.given@
    }

    /// Each pending constraint gives a term that is no variable to a variable of its own that
    /// the classes do not know.
    pub closed spec fn fresh_queue(&self) -> bool {
        &&& distinct_vars(constraints_model(self.queue@))
        &&& forall|i: int| 0 <= i < self.queue@.len() ==> #[trigger] fresh_term(self.classes.model(), self.queue@[i]@)
    }

    /// As [`ConstraintSolver::fresh_queue`], with every pending term and every class term
    /// without variables.
    pub closed spec fn fresh_ground(&self) -> bool {
        &&& self.fresh_queue()
        &&& distinct_ground(constraints_model(self.queue@))
        &&& forall|r: u32| #[trigger] self.classes.model().terms.contains_key(r) ==> ground(self.classes.model().terms[r])
    }

    /// Every class term and every pending term holds no variable.
    pub closed spec fn ground_pending(&self) -> bool {
        &&& ground_class_terms(self.classes.model())
        &&& ground_values(constraints_model(self.queue@))
    }

    /// The constraints that wait to be taken in.
    pub closed spec fn pending(&self) -> Seq<(u32, TermModel)> {
        constraints_model(self.queue@)
    }

    /// Nothing is pending and no variable is known yet.
    pub closed spec fn is_empty(&self) -> bool {
        self.queue@.len() == 0 && self.classes.known_vars().len() == 0
    }

    /// The classes and the pending constraints are met by exactly the substitutions
    /// that meet every constraint handed in.
    pub closed spec fn inv(&self) -> bool {
        &&& self.classes.wf()
        &&& forall|f: spec_fn(u32) -> TermModel| #[trigger] holds(f, self.classes.model(), constraints_model(self.queue@)) <==> satisfies(f, self.given@)
    }

    /// A solver with the given constraints pending.
    pub(crate) fn new(constraints: Vec<BindingConstraint>) -> (r: Self)
        ensures
            r.inv(),
            r.given() == constraints_model(constraints@),
            constraints@.len() == 0 ==> r.is_empty(),
            distinct_ground(constraints_model(constraints@)) ==> r.fresh_ground(),
            distinct_nonvar(constraints_model(constraints@)) ==> r.fresh_queue(),
            ground_values(constraints_model(constraints@)) ==> r.ground_pending(),
            r.pending() == constraints_model(constraints@),
    {
        let ghost cm = constraints_model(constraints@);
        let r = ConstraintSolver {
            classes: EquivalenceClasses::new(),
            queue: constraints,
            given: Ghost(constraints_model(constraints@)),
        };
        proof {
            assert forall|f: spec_fn(u32) -> TermModel| #[trigger] holds(f, r.classes.model(), constraints_model(r.queue@)) <==> satisfies(f, r.given@) by {
                assert(satisfies_classes(f, r.classes.model()));
            }
            if distinct_ground(cm) {
                assert forall|i: int| 0 <= i < r.queue@.len() implies #[trigger] fresh_term(r.classes.model(), r.queue@[i]@) by {
                    assert(cm[i] == r.queue@[i]@);
                    assert(ground(cm[i].1));
                }
            }
            if distinct_nonvar(cm) {
                assert forall|i: int| 0 <= i < r.queue@.len() implies #[trigger] fresh_term(r.classes.model(), r.queue@[i]@) by {
                    assert(cm[i] == r.queue@[i]@);
                }
            }
        }
        r
    }

    /// Takes in one more constraint.
    pub(crate) fn register_constraint(&mut self, constraint: BindingConstraint) -> (r: Result<(), UnificationError>)
        requires
            old(self).inv(),
        ensures
            r is Ok ==> final(self).inv() && final(self).given() == old(self).given().push(constraint@),
            r matches Err(e) ==> e != UnificationError::CyclicReference && e != UnificationError::StepLimitReached && forall|f: spec_fn(u32) -> TermModel| !#[trigger] satisfies(f, old(self).given().push(constraint@)),
            old(self).ground_pending() && (constraint@.1 is Variable || ground(constraint@.1)) && r is Ok ==> final(self).ground_pending(),
            forall|f: spec_fn(u32) -> TermModel| #[trigger] satisfies(f, old(self).given().push(constraint@))
                ==> weight(f, final(self).pending()) < weight(f, old(self).pending()) + term_size(apply(f, constraint@.1)),
    {
        let ghost g = self.given@;
        let ghost c0 = self.classes.model();
        let ghost q0 = constraints_model(self.queue@);
        let ghost cv = constraint@;
        let res = self.classes.register(constraint, &mut self.queue);
        proof {
            assert forall|f: spec_fn(u32) -> TermModel| #[trigger] satisfies(f, g.push(cv)) <==> (satisfies(f, g) && f(cv.0) == apply(f, cv.1)) by {
                lemma_satisfies_concat(f, g, seq![cv]);
                assert(g.push(cv) =~= g + seq![cv]);
                assert(seq![cv][0] == cv);
            }
            assert forall|f: spec_fn(u32) -> TermModel| #[trigger] satisfies(f, g.push(cv))
                implies weight(f, constraints_model(self.queue@)) < weight(f, q0) + term_size(apply(f, cv.1)) by {
                assert(holds(f, c0, q0) <==> satisfies(f, g));
                assert(holds(f, c0, q0));
            }
            if res is Ok {
                assert forall|f: spec_fn(u32) -> TermModel| #[trigger] holds(f, self.classes.model(), constraints_model(self.queue@)) <==> satisfies(f, g.push(cv)) by {
                    assert(holds(f, c0, q0) <==> satisfies(f, g));
                }
            } else {
                assert forall|f: spec_fn(u32) -> TermModel| !#[trigger] satisfies(f, g.push(cv)) by {
                    if satisfies(f, g.push(cv)) {
                        assert(holds(f, c0, q0));
                    }
                }
            }
        }
        self.given = Ghost(g.push(cv));
        res
    }

    /// Takes in the pending constraints, and those they give rise to, until none is left.
    fn process_constraints(&mut self) -> (r: Result<(), UnificationError>)
        requires
            old(self).inv(),
        ensures
            r is Ok ==> final(self).inv() && final(self).given() == old(self).given() && final(self).queue@.len() == 0,
            r matches Err(e) ==> e != UnificationError::StepLimitReached ==> forall|f: spec_fn(u32) -> TermModel| !#[trigger] satisfies(f, old(self).given()),
            old(self).fresh_ground() ==> r is Ok && final(self).fresh_ground(),
            old(self).fresh_queue() ==> r is Ok,
            old(self).ground_pending() ==> r != Err::<(), UnificationError>(UnificationError::StepLimitReached),
            old(self).ground_pending() && r is Ok ==> final(self).ground_pending(),
            (exists|f: spec_fn(u32) -> TermModel| #[trigger] satisfies(f, old(self).given()) && weight(f, old(self).pending()) < u64::MAX) ==> r is Ok,
    {
        let ghost g = self.given@;
        let ghost bounded = exists|f: spec_fn(u32) -> TermModel| #[trigger] satisfies(f, g) && weight(f, constraints_model(self.queue@)) < u64::MAX;
        let ghost th = choose|f: spec_fn(u32) -> TermModel| #[trigger] satisfies(f, g) && weight(f, constraints_model(self.queue@)) < u64::MAX;
        proof {
            if exists|f: spec_fn(u32) -> TermModel| #[trigger] satisfies(f, old(self).given()) && weight(f, old(self).pending()) < u64::MAX {
                let f = choose|f: spec_fn(u32) -> TermModel| #[trigger] satisfies(f, old(self).given()) && weight(f, old(self).pending()) < u64::MAX;
                assert(satisfies(f, g) && weight(f, constraints_model(self.queue@)) < u64::MAX);
                assert(bounded);
            }
        }
        let ghost gp0 = self.ground_pending();
        let ghost fresh0 = self.fresh_ground();
        let ghost freshq0 = self.fresh_queue();
        let ghost n0 = self.queue@.len();
        let qlen = self.queue.len();
        assert(n0 == qlen);
        let mut steps: u64 = 0;
        loop
            invariant
                self.inv(),
                self.given@ == g,
                g == old(self).given(),
                fresh0 == old(self).fresh_ground(),
                n0 == old(self).queue@.len(),
                n0 <= usize::MAX,
                fresh0 ==> self.fresh_ground(),
                freshq0 == old(self).fresh_queue(),
                freshq0 ==> self.fresh_queue() && steps + self.queue@.len() <= n0,
                gp0 == old(self).ground_pending(),
                gp0 ==> self.ground_pending() && steps + self.queue@.len() <= n0,
                bounded ==> satisfies(th, g) && steps + weight(th, constraints_model(self.queue@)) < u64::MAX,
                (exists|f: spec_fn(u32) -> TermModel| #[trigger] satisfies(f, old(self).given()) && weight(f, old(self).pending()) < u64::MAX) ==> bounded,
            decreases u64::MAX - steps,
        {
            let ghost c0 = self.classes.model();
            let ghost q0 = constraints_model(self.queue@);
            let ghost qv0 = self.queue@;
            match self.queue.pop() {
                None => {
                    return Ok(());
                },
                Some(constraint) => {
                    proof {
                        if bounded {
                            assert(q0 =~= constraints_model(self.queue@).push(constraint@));
                            assert(q0.drop_last() =~= constraints_model(self.queue@));
                            lemma_term_size_positive(apply(th, constraint@.1));
                        }
                    }
                    assert(freshq0 ==> steps < u64::MAX);
                    assert(gp0 ==> steps < u64::MAX);
                    assert(bounded ==> steps < u64::MAX);
                    if steps == u64::MAX {
                        return Err(UnificationError::StepLimitReached);
                    }
                    steps = steps + 1;
                    let ghost cv = constraint@;
                    let ghost q1 = constraints_model(self.queue@);
                    let ghost rest = self.queue@;
                    proof {
                        assert(qv0 =~= rest.push(constraint));
                        if freshq0 {
                            assert(qv0[rest.len() as int] == constraint);
                            assert(constraints_model(qv0)[rest.len() as int] == cv);
                            assert(fresh_term(c0, qv0[rest.len() as int]@));
                        }
                        if fresh0 {
                            assert(constraints_model(qv0)[rest.len() as int] == cv);
                            assert(ground(constraints_model(qv0)[rest.len() as int].1));
                        }
                        if gp0 {
                            assert(constraints_model(qv0)[rest.len() as int] == cv);
                            assert(ground(constraints_model(qv0)[rest.len() as int].1));
                        }
                    }
                    proof {
                        assert(q0 =~= q1.push(cv));
                        assert forall|f: spec_fn(u32) -> TermModel| #[trigger] satisfies(f, q0) <==> (satisfies(f, q1) && f(cv.0) == apply(f, cv.1)) by {
                            lemma_satisfies_concat(f, q1, seq![cv]);
                            assert(q1.push(cv) =~= q1 + seq![cv]);
                            assert(seq![cv][0] == cv);
                        }
                    }
                    let res = self.classes.register(constraint, &mut self.queue);
                    match res {
                        Ok(()) => {
                            proof {
                                if gp0 {
                                    assert(self.queue@ == rest);
                                    assert forall|i: int| 0 <= i < constraints_model(self.queue@).len() implies ground(#[trigger] constraints_model(self.queue@)[i].1) by {
                                        assert(constraints_model(qv0)[i] == constraints_model(self.queue@)[i]);
                                    }
                                }
                                if freshq0 {
                                    let c1 = self.classes.model();
                                    let all = qv0;
                                    assert(self.queue@ == rest);
                                    assert forall|i: int| 0 <= i < self.queue@.len() implies #[trigger] fresh_term(c1, self.queue@[i]@) by {
                                        assert(all[i] == rest[i]);
                                        assert(fresh_term(c0, all[i]@));
                                        assert(constraints_model(all)[i] == all[i]@);
                                        assert(constraints_model(all)[rest.len() as int] == cv);
                                        assert(constraints_model(all)[i].0 != constraints_model(all)[rest.len() as int].0);
                                    }
                                    assert forall|i: int, j: int| 0 <= i < j < self.queue@.len() implies #[trigger] constraints_model(self.queue@)[i].0 != #[trigger] constraints_model(self.queue@)[j].0 by {
                                        assert(constraints_model(all)[i] == constraints_model(self.queue@)[i]);
                                        assert(constraints_model(all)[j] == constraints_model(self.queue@)[j]);
                                    }
                                }
                                if fresh0 {
                                    let c1 = self.classes.model();
                                    let all = qv0;
                                    assert(self.queue@ == rest);
                                    assert forall|i: int| 0 <= i < self.queue@.len() implies #[trigger] fresh_term(c1, self.queue@[i]@) by {
                                        assert(all[i] == rest[i]);
                                        assert(fresh_term(c0, all[i]@));
                                        assert(constraints_model(all)[i] == all[i]@);
                                        assert(constraints_model(all)[rest.len() as int] == cv);
                                        assert(constraints_model(all)[i].0 != constraints_model(all)[rest.len() as int].0);
                                    }
                                    assert forall|r: u32| #[trigger] c1.terms.contains_key(r) implies ground(c1.terms[r]) by {
                                        if r != cv.0 {
                                            assert(c0.terms.contains_key(r));
                                        }
                                    }
                                    assert forall|i: int| 0 <= i < self.queue@.len() implies ground(#[trigger] constraints_model(self.queue@)[i].1) by {
                                        assert(constraints_model(all)[i] == constraints_model(self.queue@)[i]);
                                    }
                                    assert forall|i: int, j: int| 0 <= i < j < self.queue@.len() implies #[trigger] constraints_model(self.queue@)[i].0 != #[trigger] constraints_model(self.queue@)[j].0 by {
                                        assert(constraints_model(all)[i] == constraints_model(self.queue@)[i]);
                                        assert(constraints_model(all)[j] == constraints_model(self.queue@)[j]);
                                    }
                                }
                            }
                            proof {
                                assert forall|f: spec_fn(u32) -> TermModel| #[trigger] holds(f, self.classes.model(), constraints_model(self.queue@)) <==> satisfies(f, g) by {
                                    assert(holds(f, c0, q0) <==> satisfies(f, g));
                                    assert(satisfies(f, q0) <==> (satisfies(f, q1) && f(cv.0) == apply(f, cv.1)));
                                }
                                if bounded {
                                    assert(holds(th, c0, q0));
                                    assert(satisfies(th, q0) <==> (satisfies(th, q1) && th(cv.0) == apply(th, cv.1)));
                                    assert(holds(th, c0, q1));
                                    assert(weight(th, q0) == weight(th, q1) + term_size(apply(th, cv.1)));
                                }
                            }
                        },
                        Err(e) => {
                            proof {
                                assert forall|f: spec_fn(u32) -> TermModel| !#[trigger] satisfies(f, g) by {
                                    if satisfies(f, g) {
                                        assert(holds(f, c0, q0));
                                        assert(satisfies(f, q0) <==> (satisfies(f, q1) && f(cv.0) == apply(f, cv.1)));
                                        assert(holds(f, c0, q1));
                                    }
                                }
                            }
                            return Err(e);
                        },
                    }
                },
            }
        }
    }
}


/// Whether `x` is one of `v`.
fn contains_var(v: &Vec<u32>, x: u32) -> (r: bool)
    ensures
        r == v@.contains(x),
{
    let mut i: usize = 0;
    while i < v.len()
        invariant
            i <= v.len(),
            forall|j: int| 0 <= j < i ==> v@[j] != x,
        decreases v.len() - i,
    {
        if v[i] == x {
            return true;
        }
        i += 1;
    }
    false
}

pub proof fn lemma_push_to_set(s: Seq<u32>, x: u32)
    ensures
        s.push(x).to_set() == s.to_set().insert(x),
{
    assert forall|y: u32| s.push(x).to_set().contains(y) <==> s.to_set().insert(x).contains(y) by {
        if s.push(x).contains(y) {
            let j = choose|j: int| 0 <= j < s.push(x).len() && s.push(x)[j] == y;
            if j < s.len() {
                assert(s[j] == y);
            }
        }
        if s.contains(y) {
            let j = choose|j: int| 0 <= j < s.len() && s[j] == y;
            assert(s.push(x)[j] == y);
        }
        if y == x {
            assert(s.push(x)[s.len() as int] == x);
        }
    }
    assert(s.push(x).to_set() =~= s.to_set().insert(x));
}

pub proof fn lemma_resolution_all_take(c: ClassesModel, ts: Seq<TermModel>, vis: Set<u32>, i: int)
    requires
        0 <= i < ts.len(),
    ensures
        resolution_all(c, ts.take(i + 1), vis) == match resolution_all(c, ts.take(i), vis) {
            Err(e) => Err(e),
            Ok(us) => match resolution(c, ts[i], vis) {
                Err(e) => Err(e),
                Ok(u) => Ok(us.push(u)),
            },
        },
{
    assert(ts.take(i + 1).drop_last() =~= ts.take(i));
    assert(ts.take(i + 1).last() == ts[i]);
}

pub proof fn lemma_resolution_all_err_prefix(c: ClassesModel, ts: Seq<TermModel>, vis: Set<u32>, i: int)
    requires
        0 <= i <= ts.len(),
        resolution_all(c, ts.take(i), vis) is Err,
    ensures
        resolution_all(c, ts, vis) == resolution_all(c, ts.take(i), vis),
    decreases ts.len() - i,
{
    if i == ts.len() {
        assert(ts.take(i) =~= ts);
    } else {
        lemma_resolution_all_take(c, ts, vis, i);
        lemma_resolution_all_err_prefix(c, ts, vis, i + 1);
    }
}

impl EquivalenceClasses {
    /// [`resolution`] of each term of the list.
    fn resolve_terms(&self, items: &Vec<Term>, visiting: &mut Vec<u32>) -> (r: Result<Vec<Term>, UnificationError>)
        requires
            self.wf(),
        ensures
            final(visiting)@ == old(visiting)@,
            match resolution_all(self.model(), terms_model(items@), old(visiting)@.to_set()) {
                Ok(us) => r matches Ok(v) && terms_model(v@) == us,
                Err(e) => r == Err::<Vec<Term>, UnificationError>(e),
            },
        decreases self.model().terms.dom().difference(old(visiting)@.to_set()).len(), items,
    {
        let ghost c = self.model();
        let ghost vis = visiting@.to_set();
        let ghost ts = terms_model(items@);
        let mut out: Vec<Term> = Vec::new();
        let mut i: usize = 0;
        assert(ts.take(0) =~= Seq::<TermModel>::empty());
        assert(terms_model(out@) =~= Seq::<TermModel>::empty());
        while i < items.len()
            invariant
                i <= items.len(),
                self.wf(),
                c == self.model(),
                visiting@ == old(visiting)@,
                vis == old(visiting)@.to_set(),
                ts == terms_model(items@),
                resolution_all(c, ts.take(i as int), vis) == Ok::<Seq<TermModel>, UnificationError>(terms_model(out@)),
            decreases items.len() - i,
        {
            proof {
                assert(decreases_to!(*items => items[i as int]));
                lemma_resolution_all_take(c, ts, vis, i as int);
            }
            match self.resolve_term(&items[i], visiting) {
                Ok(u) => {
                    let ghost before = out@;
                    out.push(u);
                    assert(terms_model(out@) =~= terms_model(before).push(u@));
                },
                Err(e) => {
                    proof {
                        lemma_resolution_all_err_prefix(c, ts, vis, i + 1);
                    }
                    return Err(e);
                },
            }
            i += 1;
        }
        assert(ts.take(items.len() as int) =~= ts);
        Ok(out)
    }

    /// [`resolution`] of the term, with the classes on the way in `visiting`.
    fn resolve_term(&self, term: &Term, visiting: &mut Vec<u32>) -> (r: Result<Term, UnificationError>)
        requires
            self.wf(),
        ensures
            final(visiting)@ == old(visiting)@,
            match resolution(self.model(), term@, old(visiting)@.to_set()) {
                Ok(u) => r matches Ok(t) && t@ == u,
                Err(e) => r == Err::<Term, UnificationError>(e),
            },
        decreases self.model().terms.dom().difference(old(visiting)@.to_set()).len(), term,
    {
        let ghost c = self.model();
        match term {
            Term::Variable(v) => {
                match self.root_of(v.id.0) {
                    None => Ok(term.clone()),
                    Some(root) => {
                        match self.root_to_term.get(&root) {
                            None => Ok(term.clone()),
                            Some(t) => {
                                if contains_var(visiting, root) {
                                    return Err(UnificationError::CyclicReference);
                                }
                                proof {
                                    assert(c.terms.contains_key(root));
                                    assert(c.parent.dom().finite());
                                    assert(c.terms.dom().subset_of(c.parent.dom()));
                                    vstd::set_lib::lemma_set_subset_finite(c.parent.dom(), c.terms.dom());
                                    lemma_difference_shrinks(c.terms.dom(), visiting@.to_set(), root);
                                    lemma_push_to_set(visiting@, root);
                                }
                                visiting.push(root);
                                let res = self.resolve_term(t, visiting);
                                visiting.pop();
                                proof {
                                    assert(visiting@ =~= old(visiting)@);
                                    assert(term@ == TermModel::Variable(v.id.0));
                                    assert(c.terms[root] == t@);
                                    assert(root == root_in(c, v.id.0));
                                    assert(resolution(c, term@, old(visiting)@.to_set()) == resolution(c, t@, old(visiting)@.to_set().insert(root)));
                                }
                                res
                            },
                        }
                    },
                }
            },
            Term::List(items) => {
                proof {
                    assert(decreases_to!(*term => (*term)->List_0));
                }
                match self.resolve_terms(items, visiting) {
                    Ok(us) => Ok(Term::List(us)),
                    Err(e) => Err(e),
                }
            },
            Term::Literal(l) => {
                match &l.structure.arguments {
                    Some(args) => {
                        proof {
                            assert(decreases_to!(*term => (*term)->Literal_0));
                            assert(decreases_to!(l => l.structure));
                            assert(decreases_to!(l.structure => l.structure.arguments));
                            assert(decreases_to!(l.structure.arguments => (l.structure.arguments)->Some_0));
                        }
                        match self.resolve_terms(args, visiting) {
                            Ok(us) => {
                                assert(term@ == TermModel::Literal(l@));
                                assert(l@.structure.arguments == Some(terms_model(args@)));
                                let structure = crate::term::Structure { functor: l.structure.functor.clone(), arguments: Some(us) };
                                assert(structure@ == StructureModel { functor: l.structure.functor.0@, arguments: Some(terms_model(us@)) });
                                let lit = crate::literal::Literal { negated: l.negated, structure };
                                assert(lit@ == LiteralModel { negated: l.negated, structure: structure@ });
                                Ok(Term::Literal(lit))
                            },
                            Err(e) => Err(e),
                        }
                    },
                    None => Ok(term.clone()),
                }
            },
            _ => Ok(term.clone()),
        }
    }
}


/// A resolution that succeeds gives the same term whatever classes were on the way.
pub proof fn lemma_resolution_unique(c: ClassesModel, t: TermModel, v1: Set<u32>, v2: Set<u32>)
    requires
        resolution(c, t, v1) is Ok,
        resolution(c, t, v2) is Ok,
    ensures
        resolution(c, t, v1) == resolution(c, t, v2),
    decreases c.terms.dom().difference(v1).len(), t,
{
    match t {
        TermModel::Variable(x) => {
            if c.parent.contains_key(x) && c.terms.contains_key(root_in(c, x)) && c.terms.dom().finite() {
                let r = root_in(c, x);
                lemma_difference_shrinks(c.terms.dom(), v1, r);
                lemma_resolution_unique(c, c.terms[r], v1.insert(r), v2.insert(r));
            }
        },
        TermModel::List(items) => {
            lemma_resolution_all_unique(c, items, v1, v2);
        },
        TermModel::Literal(l) => match l.structure.arguments {
            Some(a) => {
                lemma_resolution_all_unique(c, a, v1, v2);
            },
            None => {},
        },
        _ => {},
    }
}

pub proof fn lemma_resolution_all_unique(c: ClassesModel, ts: Seq<TermModel>, v1: Set<u32>, v2: Set<u32>)
    requires
        resolution_all(c, ts, v1) is Ok,
        resolution_all(c, ts, v2) is Ok,
    ensures
        resolution_all(c, ts, v1) == resolution_all(c, ts, v2),
    decreases c.terms.dom().difference(v1).len(), ts,
{
    if ts.len() > 0 {
        lemma_resolution_all_unique(c, ts.drop_last(), v1, v2);
        lemma_resolution_unique(c, ts.last(), v1, v2);
    }
}

/// The term of the class of the root `r`, resolved.
pub open spec fn resolved_root(c: ClassesModel, r: u32) -> Result<TermModel, UnificationError> {
    resolution(c, c.terms[r], Set::empty())
}

/// `theta` gives each variable whose class has a term that term resolved and then
/// renamed by `ren`, and every other variable its renaming.
pub open spec fn solution_of_classes(c: ClassesModel, theta: spec_fn(u32) -> TermModel, ren: spec_fn(u32) -> TermModel) -> bool {
    &&& forall|x: u32| #[trigger] theta(x) == if c.parent.contains_key(x) && c.terms.contains_key(root_in(c, x)) {
        apply(ren, resolved_root(c, root_in(c, x))->Ok_0)
    } else {
        ren(x)
    }
    &&& forall|r: u32| #[trigger] c.terms.contains_key(r) ==> resolved_root(c, r) is Ok
}

/// Such a `theta` turns a term into its resolution, renamed.
pub proof fn lemma_apply_resolution(c: ClassesModel, theta: spec_fn(u32) -> TermModel, ren: spec_fn(u32) -> TermModel, t: TermModel, vis: Set<u32>)
    requires
        classes_wf(c),
        solution_of_classes(c, theta, ren),
        resolution(c, t, vis) is Ok,
    ensures
        apply(theta, t) == apply(ren, resolution(c, t, vis)->Ok_0),
    decreases t,
{
    match t {
        TermModel::Variable(x) => {
            assert(theta(x) == if c.parent.contains_key(x) && c.terms.contains_key(root_in(c, x)) {
                apply(ren, resolved_root(c, root_in(c, x))->Ok_0)
            } else {
                ren(x)
            });
            if c.parent.contains_key(x) && c.terms.contains_key(root_in(c, x)) {
                let r = root_in(c, x);
                assert(c.parent.dom().finite());
                assert(c.terms.dom().subset_of(c.parent.dom()));
                vstd::set_lib::lemma_set_subset_finite(c.parent.dom(), c.terms.dom());
                assert(resolved_root(c, r) is Ok);
                lemma_resolution_unique(c, c.terms[r], vis.insert(r), Set::empty());
            }
        },
        TermModel::List(items) => {
            lemma_apply_resolution_all(c, theta, ren, items, vis);
        },
        TermModel::Literal(l) => match l.structure.arguments {
            Some(a) => {
                lemma_apply_resolution_all(c, theta, ren, a, vis);
            },
            None => {},
        },
        _ => {},
    }
}

pub proof fn lemma_apply_resolution_all(c: ClassesModel, theta: spec_fn(u32) -> TermModel, ren: spec_fn(u32) -> TermModel, ts: Seq<TermModel>, vis: Set<u32>)
    requires
        classes_wf(c),
        solution_of_classes(c, theta, ren),
        resolution_all(c, ts, vis) is Ok,
    ensures
        apply_all(theta, ts) == apply_all(ren, resolution_all(c, ts, vis)->Ok_0),
    decreases ts,
{
    let us = resolution_all(c, ts, vis)->Ok_0;
    if ts.len() == 0 {
        assert(apply_all(theta, ts) =~= apply_all(ren, us));
    } else {
        let us1 = resolution_all(c, ts.drop_last(), vis)->Ok_0;
        let u = resolution(c, ts.last(), vis)->Ok_0;
        lemma_apply_resolution_all(c, theta, ren, ts.drop_last(), vis);
        lemma_apply_resolution(c, theta, ren, ts.last(), vis);
        assert(us == us1.push(u));
        assert(apply_all(theta, ts) =~= apply_all(theta, ts.drop_last()).push(apply(theta, ts.last())));
        assert(apply_all(ren, us) =~= apply_all(ren, us1).push(apply(ren, u)));
    }
}


/// A term without variables resolves to itself.
pub proof fn lemma_resolution_ground_same(c: ClassesModel, t: TermModel, vis: Set<u32>)
    requires
        ground(t),
    ensures
        resolution(c, t, vis) == Ok::<TermModel, UnificationError>(t),
    decreases c.terms.dom().difference(vis).len(), t,
{
    match t {
        TermModel::List(items) => {
            lemma_resolution_all_ground_same(c, items, vis);
        },
        TermModel::Literal(l) => match l.structure.arguments {
            Some(a) => {
                lemma_resolution_all_ground_same(c, a, vis);
            },
            None => {},
        },
        _ => {},
    }
}

pub proof fn lemma_resolution_all_ground_same(c: ClassesModel, ts: Seq<TermModel>, vis: Set<u32>)
    requires
        all_ground(ts),
    ensures
        resolution_all(c, ts, vis) == Ok::<Seq<TermModel>, UnificationError>(ts),
    decreases c.terms.dom().difference(vis).len(), ts,
{
    if ts.len() > 0 {
        let n = ts.len() - 1;
        assert(ts.take(n + 1) =~= ts);
        lemma_all_ground_take(ts, n);
        assert(ts.take(n) =~= ts.drop_last());
        lemma_resolution_all_ground_same(c, ts.drop_last(), vis);
        lemma_resolution_ground_same(c, ts.last(), vis);
        assert(ts.drop_last().push(ts.last()) =~= ts);
    } else {
        assert(ts =~= Seq::<TermModel>::empty());
    }
}

/// Resolving a term changes nothing under a substitution that meets the classes.
pub proof fn lemma_resolution_kept(f: spec_fn(u32) -> TermModel, c: ClassesModel, t: TermModel, vis: Set<u32>)
    requires
        classes_wf(c),
        satisfies_classes(f, c),
        resolution(c, t, vis) is Ok,
    ensures
        apply(f, resolution(c, t, vis)->Ok_0) == apply(f, t),
    decreases c.terms.dom().difference(vis).len(), t,
{
    match t {
        TermModel::Variable(x) => {
            assert(c.terms.dom().subset_of(c.parent.dom()));
            vstd::set_lib::lemma_set_subset_finite(c.parent.dom(), c.terms.dom());
            if c.parent.contains_key(x) && c.terms.contains_key(root_in(c, x)) {
                let r = root_in(c, x);
                lemma_difference_shrinks(c.terms.dom(), vis, r);
                assert(!vis.contains(r));
                assert(resolution(c, t, vis) == resolution(c, c.terms[r], vis.insert(r)));
                lemma_resolution_kept(f, c, c.terms[r], vis.insert(r));
                assert(f(x) == f(r));
                assert(f(r) == apply(f, c.terms[r]));
            }
        },
        TermModel::List(items) => {
            lemma_resolution_all_kept(f, c, items, vis);
        },
        TermModel::Literal(l) => match l.structure.arguments {
            Some(a) => {
                lemma_resolution_all_kept(f, c, a, vis);
            },
            None => {},
        },
        _ => {},
    }
}

pub proof fn lemma_resolution_all_kept(f: spec_fn(u32) -> TermModel, c: ClassesModel, ts: Seq<TermModel>, vis: Set<u32>)
    requires
        classes_wf(c),
        satisfies_classes(f, c),
        resolution_all(c, ts, vis) is Ok,
    ensures
        apply_all(f, resolution_all(c, ts, vis)->Ok_0) == apply_all(f, ts),
    decreases c.terms.dom().difference(vis).len(), ts,
{
    let us = resolution_all(c, ts, vis)->Ok_0;
    if ts.len() == 0 {
        assert(apply_all(f, ts) =~= apply_all(f, us));
    } else {
        let us1 = resolution_all(c, ts.drop_last(), vis)->Ok_0;
        let u = resolution(c, ts.last(), vis)->Ok_0;
        lemma_resolution_all_kept(f, c, ts.drop_last(), vis);
        lemma_resolution_kept(f, c, ts.last(), vis);
        assert(us == us1.push(u));
        assert(apply_all(f, ts) =~= apply_all(f, ts.drop_last()).push(apply(f, ts.last())));
        assert(apply_all(f, us) =~= apply_all(f, us1).push(apply(f, u)));
    }
}

/// The bindings built from the classes are most general: a substitution that meets the
/// classes meets what the bindings say.
pub proof fn lemma_classes_most_general(
    f: spec_fn(u32) -> TermModel,
    c: ClassesModel,
    known: Seq<u32>,
    es: Seq<(u32, Option<TermModel>)>,
    pm: Seq<(u32, u32)>,
)
    requires
        classes_wf(c),
        satisfies_classes(f, c),
        es.len() == known.len(),
        forall|i: int| 0 <= i < es.len() ==> #[trigger] es[i] == (known[i], expected_binding(c, known[i])),
        forall|i: int| 0 <= i < known.len() ==> c.parent.contains_key(#[trigger] known[i]),
        forall|r: u32| #[trigger] c.terms.contains_key(r) ==> resolved_root(c, r) is Ok,
        forall|i: int| 0 <= i < pm.len() ==> {
            &&& c.parent.contains_key((#[trigger] pm[i]).0)
            &&& c.parent.contains_key(pm[i].1)
            &&& root_in(c, pm[i].0) == root_in(c, pm[i].1)
        },
    ensures
        satisfies(f, crate::bindings::bound_constraints(es) + crate::bindings::alias_constraints(pm)),
{
    assert forall|i: int| 0 <= i < es.len() && (#[trigger] es[i]).1 is Some implies f(es[i].0) == apply(f, es[i].1->Some_0) by {
        let v = known[i];
        let r = root_in(c, v);
        assert(c.parent.contains_key(v));
        assert(c.terms.contains_key(r));
        assert(resolved_root(c, r) is Ok);
        lemma_resolution_kept(f, c, c.terms[r], Set::empty());
        assert(f(v) == f(r));
    }
    crate::bindings::lemma_bound_constraints_hold(f, es);
    let ac = crate::bindings::alias_constraints(pm);
    assert forall|i: int| 0 <= i < ac.len() implies #[trigger] f(ac[i].0) == apply(f, ac[i].1) by {
        assert(ac[i] == (pm[i].0, TermModel::Variable(pm[i].1)));
        assert(f(pm[i].0) == f(root_in(c, pm[i].0)));
        assert(f(pm[i].1) == f(root_in(c, pm[i].1)));
    }
    lemma_satisfies_concat(f, crate::bindings::bound_constraints(es), ac);
}

/// Such a `theta` meets the classes, when the renaming names alike the variables of a class.
pub proof fn lemma_classes_solution(c: ClassesModel, theta: spec_fn(u32) -> TermModel, ren: spec_fn(u32) -> TermModel)
    requires
        classes_wf(c),
        solution_of_classes(c, theta, ren),
        forall|v: u32| #[trigger] c.parent.contains_key(v) ==> ren(v) == ren(root_in(c, v)),
    ensures
        satisfies_classes(theta, c),
{
    assert forall|v: u32| #[trigger] c.parent.contains_key(v) implies theta(v) == theta(root_in(c, v)) by {
        lemma_root(c, v);
        let r = root_in(c, v);
        assert(root_in(c, r) == r);
        assert(c.parent.contains_key(r));
        assert(theta(v) == if c.parent.contains_key(v) && c.terms.contains_key(root_in(c, v)) {
            apply(ren, resolved_root(c, root_in(c, v))->Ok_0)
        } else {
            ren(v)
        });
        assert(theta(r) == if c.parent.contains_key(r) && c.terms.contains_key(root_in(c, r)) {
            apply(ren, resolved_root(c, root_in(c, r))->Ok_0)
        } else {
            ren(r)
        });
    }
    assert forall|r: u32| #[trigger] c.terms.contains_key(r) implies theta(r) == apply(theta, c.terms[r]) by {
        assert(c.parent.contains_key(r) && c.parent[r] == r);
        assert(root_in(c, r) == r);
        assert(theta(r) == if c.parent.contains_key(r) && c.terms.contains_key(root_in(c, r)) {
            apply(ren, resolved_root(c, root_in(c, r))->Ok_0)
        } else {
            ren(r)
        });
        assert(resolved_root(c, r) is Ok);
        lemma_apply_resolution(c, theta, ren, c.terms[r], Set::empty());
    }
}

/// How many nodes a term has.
pub open spec fn term_size(t: TermModel) -> nat
    decreases t,
{
    match t {
        TermModel::List(items) => 1 + terms_size(items),
        TermModel::Literal(l) => match l.structure.arguments {
            Some(a) => 1 + terms_size(a),
            None => 1,
        },
        _ => 1,
    }
}

/// How many nodes the terms have together.
pub open spec fn terms_size(ts: Seq<TermModel>) -> nat
    decreases ts,
{
    if ts.len() == 0 {
        0
    } else {
        terms_size(ts.drop_last()) + term_size(ts.last())
    }
}

/// Every term has at least one node.
pub proof fn lemma_term_size_positive(t: TermModel)
    ensures
        term_size(t) >= 1,
{
}

/// How large the terms that the constraints give are under `f`, together.
pub open spec fn weight(f: spec_fn(u32) -> TermModel, q: Seq<(u32, TermModel)>) -> nat
    decreases q.len(),
{
    if q.len() == 0 {
        0
    } else {
        weight(f, q.drop_last()) + term_size(apply(f, q.last().1))
    }
}

pub proof fn lemma_weight_concat(f: spec_fn(u32) -> TermModel, a: Seq<(u32, TermModel)>, b: Seq<(u32, TermModel)>)
    ensures
        weight(f, a + b) == weight(f, a) + weight(f, b),
    decreases b.len(),
{
    if b.len() == 0 {
        assert(a + b =~= a);
    } else {
        lemma_weight_concat(f, a, b.drop_last());
        assert((a + b).drop_last() =~= a + b.drop_last());
        assert((a + b).last() == b.last());
    }
}

pub proof fn lemma_weight_single(f: spec_fn(u32) -> TermModel, c: (u32, TermModel))
    ensures
        weight(f, seq![c]) == term_size(apply(f, c.1)),
{
    let one = seq![c];
    assert(one.drop_last() =~= Seq::<(u32, TermModel)>::empty());
    assert(one.last() == c);
    assert(weight(f, one.drop_last()) == 0);
    assert(weight(f, one) == weight(f, one.drop_last()) + term_size(apply(f, one.last().1)));
}

proof fn lemma_terms_size_first(ts: Seq<TermModel>)
    requires
        ts.len() > 0,
    ensures
        terms_size(ts) == term_size(ts[0]) + terms_size(ts.drop_first()),
    decreases ts.len(),
{
    if ts.len() == 1 {
        assert(ts.drop_last() =~= Seq::<TermModel>::empty());
        assert(ts.drop_first() =~= Seq::<TermModel>::empty());
    } else {
        lemma_terms_size_first(ts.drop_last());
        assert(ts.drop_last().drop_first() =~= ts.drop_first().drop_last());
        assert(ts.drop_first().last() == ts.last());
        assert(ts.drop_last()[0] == ts[0]);
    }
}

/// The constraints under which two terms that `f` makes equal are equal weigh no more than
/// the term, and less when neither term is a variable.
pub proof fn lemma_constraints_weight(f: spec_fn(u32) -> TermModel, a: TermModel, b: TermModel)
    requires
        apply(f, a) == apply(f, b),
    ensures
        term_constraints(a, b) matches Ok(cs) ==> weight(f, cs) <= term_size(apply(f, a))
            && (!(a is Variable) && !(b is Variable) ==> weight(f, cs) < term_size(apply(f, a))),
    decreases a,
{
    match a {
        TermModel::Variable(v) => {
            lemma_weight_single(f, (v, b));
        },
        _ => match b {
            TermModel::Variable(v) => {
                lemma_weight_single(f, (v, a));
            },
            _ => match (a, b) {
                (TermModel::Literal(l1), TermModel::Literal(l2)) => {
                    if l1.negated == l2.negated {
                        lemma_structure_weight(f, l1.structure, l2.structure);
                    }
                },
                (TermModel::List(x), TermModel::List(y)) => {
                    if x.len() == y.len() {
                        lemma_pairwise_weight(f, x, y);
                    }
                },
                _ => {},
            },
        },
    }
}

/// The same of two structures whose arguments `f` makes equal.
pub proof fn lemma_structure_weight(f: spec_fn(u32) -> TermModel, s1: StructureModel, s2: StructureModel)
    requires
        match (s1.arguments, s2.arguments) {
            (Some(x), Some(y)) => apply_all(f, x) == apply_all(f, y),
            _ => true,
        },
    ensures
        structure_constraints(s1, s2) matches Ok(cs) ==> weight(f, cs) <= match s1.arguments {
            Some(x) => terms_size(apply_all(f, x)),
            None => 0,
        },
    decreases s1,
{
    if s1.functor == s2.functor {
        if let (Some(x), Some(y)) = (s1.arguments, s2.arguments) {
            if x.len() == y.len() {
                lemma_pairwise_weight(f, x, y);
            }
        }
    }
}

/// The same of terms at the same positions.
pub proof fn lemma_pairwise_weight(f: spec_fn(u32) -> TermModel, xs: Seq<TermModel>, ys: Seq<TermModel>)
    requires
        xs.len() == ys.len(),
        apply_all(f, xs) == apply_all(f, ys),
    ensures
        pairwise_constraints(xs, ys) matches Ok(cs) ==> weight(f, cs) <= terms_size(apply_all(f, xs)),
    decreases xs,
{
    if xs.len() > 0 {
        assert(apply_all(f, xs)[0] == apply(f, xs[0]));
        assert(apply_all(f, ys)[0] == apply(f, ys[0]));
        lemma_constraints_weight(f, xs[0], ys[0]);
        assert(apply_all(f, xs.drop_first()) =~= apply_all(f, xs).drop_first());
        assert(apply_all(f, ys.drop_first()) =~= apply_all(f, ys).drop_first());
        lemma_pairwise_weight(f, xs.drop_first(), ys.drop_first());
        lemma_terms_size_first(apply_all(f, xs));
        if let Ok(c) = term_constraints(xs[0], ys[0]) {
            if let Ok(r) = pairwise_constraints(xs.drop_first(), ys.drop_first()) {
                lemma_weight_concat(f, c, r);
            }
        }
    } else {
        assert(weight(f, Seq::<(u32, TermModel)>::empty()) == 0);
    }
}

/// A term of a list is no larger than the list.
pub proof fn lemma_terms_size_item(ts: Seq<TermModel>, i: int)
    requires
        0 <= i < ts.len(),
    ensures
        term_size(ts[i]) <= terms_size(ts),
    decreases ts.len(),
{
    if i < ts.len() - 1 {
        lemma_terms_size_item(ts.drop_last(), i);
        assert(ts.drop_last()[i] == ts[i]);
    }
}

/// Under `f`, each argument of a list or literal term is smaller than the term.
pub proof fn lemma_apply_arguments_smaller(f: spec_fn(u32) -> TermModel, ts: Seq<TermModel>, i: int)
    requires
        0 <= i < ts.len(),
    ensures
        term_size(apply(f, ts[i])) < 1 + terms_size(apply_all(f, ts)),
{
    lemma_terms_size_item(apply_all(f, ts), i);
}

/// A variable of one of the terms is a variable of that term.
proof fn lemma_terms_variables_member(ts: Seq<TermModel>, x: u32) -> (i: int)
    requires
        terms_variables(ts).contains(x),
    ensures
        0 <= i < ts.len() && term_variables(ts[i]).contains(x),
    decreases ts.len(),
{
    if term_variables(ts[0]).contains(x) {
        0
    } else {
        let j = lemma_terms_variables_member(ts.drop_first(), x);
        assert(ts.drop_first()[j] == ts[j + 1]);
        j + 1
    }
}

/// Under any substitution, a variable of a term stands for a term no larger than the
/// term, and smaller unless the term is the variable itself.
pub proof fn lemma_variable_within(f: spec_fn(u32) -> TermModel, t: TermModel, x: u32)
    requires
        term_variables(t).contains(x),
    ensures
        term_size(f(x)) <= term_size(apply(f, t)),
        !(t is Variable) ==> term_size(f(x)) < term_size(apply(f, t)),
    decreases t,
{
    match t {
        TermModel::Variable(v) => {
            assert(v == x);
        },
        TermModel::List(items) => {
            let i = lemma_terms_variables_member(items, x);
            lemma_variable_within(f, items[i], x);
            lemma_apply_arguments_smaller(f, items, i);
            assert(apply_all(f, items)[i] == apply(f, items[i]));
        },
        TermModel::Literal(l) => match l.structure.arguments {
            Some(a) => {
                let i = lemma_terms_variables_member(a, x);
                lemma_variable_within(f, a[i], x);
                lemma_apply_arguments_smaller(f, a, i);
                assert(apply_all(f, a)[i] == apply(f, a[i]));
            },
            None => {},
        },
        _ => {},
    }
}

/// No term holds itself: whatever each variable stands for, a variable never stands for
/// a term, other than the bare variable, in which it occurs. So a variable never unifies
/// with such a term.
pub proof fn law_no_term_holds_itself(f: spec_fn(u32) -> TermModel, t: TermModel, x: u32)
    requires
        term_variables(t).contains(x),
        !(t is Variable),
    ensures
        f(x) != apply(f, t),
{
    lemma_variable_within(f, t, x);
}

/// Under a substitution that meets the classes, resolving a term smaller than each term a
/// class on the way stands for (strictly so when the term is a variable) meets no class
/// twice: no finite term holds itself.
pub proof fn lemma_resolution_without_cycle(f: spec_fn(u32) -> TermModel, c: ClassesModel, t: TermModel, vis: Set<u32>)
    requires
        satisfies_classes(f, c),
        terms_structured(c),
        forall|r: u32| #[trigger] vis.contains(r) ==> term_size(apply(f, t)) <= term_size(f(r))
            && (t is Variable ==> term_size(apply(f, t)) < term_size(f(r))),
    ensures
        resolution(c, t, vis) is Ok,
    decreases c.terms.dom().difference(vis).len(), t,
{
    match t {
        TermModel::Variable(x) => {
            if c.parent.contains_key(x) && c.terms.contains_key(root_in(c, x)) {
                let r = root_in(c, x);
                assert(f(x) == f(r));
                if vis.contains(r) {
                    assert(false);
                } else if c.terms.dom().finite() {
                    lemma_difference_shrinks(c.terms.dom(), vis, r);
                    let t1 = c.terms[r];
                    assert(f(r) == apply(f, t1));
                    lemma_resolution_without_cycle(f, c, t1, vis.insert(r));
                }
            }
        },
        TermModel::List(items) => {
            assert forall|i: int, r: u32| 0 <= i < items.len() && #[trigger] vis.contains(r) implies term_size(apply(f, #[trigger] items[i])) < term_size(f(r)) by {
                lemma_apply_arguments_smaller(f, items, i);
                assert(apply_all(f, items)[i] == apply(f, items[i]));
            }
            lemma_resolution_all_without_cycle(f, c, items, vis);
        },
        TermModel::Literal(l) => match l.structure.arguments {
            Some(a) => {
                assert forall|i: int, r: u32| 0 <= i < a.len() && #[trigger] vis.contains(r) implies term_size(apply(f, #[trigger] a[i])) < term_size(f(r)) by {
                    lemma_apply_arguments_smaller(f, a, i);
                    assert(apply_all(f, a)[i] == apply(f, a[i]));
                }
                lemma_resolution_all_without_cycle(f, c, a, vis);
            },
            None => {},
        },
        _ => {},
    }
}

pub proof fn lemma_resolution_all_without_cycle(f: spec_fn(u32) -> TermModel, c: ClassesModel, ts: Seq<TermModel>, vis: Set<u32>)
    requires
        satisfies_classes(f, c),
        terms_structured(c),
        forall|i: int, r: u32| 0 <= i < ts.len() && #[trigger] vis.contains(r) ==> term_size(apply(f, #[trigger] ts[i])) < term_size(f(r)),
    ensures
        resolution_all(c, ts, vis) is Ok,
    decreases c.terms.dom().difference(vis).len(), ts,
{
    if ts.len() > 0 {
        assert forall|i: int, r: u32| 0 <= i < ts.drop_last().len() && #[trigger] vis.contains(r) implies term_size(apply(f, #[trigger] ts.drop_last()[i])) < term_size(f(r)) by {
            assert(ts.drop_last()[i] == ts[i]);
        }
        lemma_resolution_all_without_cycle(f, c, ts.drop_last(), vis);
        assert forall|r: u32| #[trigger] vis.contains(r) implies term_size(apply(f, ts.last())) <= term_size(f(r))
            && (ts.last() is Variable ==> term_size(apply(f, ts.last())) < term_size(f(r))) by {
            assert(ts.last() == ts[ts.len() - 1]);
        }
        lemma_resolution_without_cycle(f, c, ts.last(), vis);
    }
}

/// A resolution fails only on a cycle.
pub proof fn lemma_resolution_error_cyclic(c: ClassesModel, t: TermModel, vis: Set<u32>)
    ensures
        resolution(c, t, vis) is Err ==> resolution(c, t, vis)->Err_0 == UnificationError::CyclicReference,
    decreases c.terms.dom().difference(vis).len(), t,
{
    match t {
        TermModel::Variable(x) => {
            if c.parent.contains_key(x) && c.terms.contains_key(root_in(c, x)) && !vis.contains(root_in(c, x)) && c.terms.dom().finite() {
                let r = root_in(c, x);
                lemma_difference_shrinks(c.terms.dom(), vis, r);
                lemma_resolution_error_cyclic(c, c.terms[r], vis.insert(r));
            }
        },
        TermModel::List(items) => {
            lemma_resolution_all_error_cyclic(c, items, vis);
        },
        TermModel::Literal(l) => match l.structure.arguments {
            Some(a) => {
                lemma_resolution_all_error_cyclic(c, a, vis);
            },
            None => {},
        },
        _ => {},
    }
}

pub proof fn lemma_resolution_all_error_cyclic(c: ClassesModel, ts: Seq<TermModel>, vis: Set<u32>)
    ensures
        resolution_all(c, ts, vis) is Err ==> resolution_all(c, ts, vis)->Err_0 == UnificationError::CyclicReference,
    decreases c.terms.dom().difference(vis).len(), ts,
{
    if ts.len() > 0 {
        lemma_resolution_all_error_cyclic(c, ts.drop_last(), vis);
        lemma_resolution_error_cyclic(c, ts.last(), vis);
    }
}

/// With keys in increasing order, the entry for a key is the one that names it.
pub proof fn lemma_last_entry_increasing(es: Seq<(u32, Option<TermModel>)>, k: u32)
    requires
        forall|i: int, j: int| 0 <= i < j < es.len() ==> es[i].0 < es[j].0,
    ensures
        forall|i: int| 0 <= i < es.len() && es[i].0 == k ==> last_entry_for(es, k) == Some(es[i].1),
        (forall|i: int| 0 <= i < es.len() ==> es[i].0 != k) ==> last_entry_for(es, k) is None,
    decreases es.len(),
{
    if es.len() > 0 {
        let d = es.drop_last();
        lemma_last_entry_increasing(d, k);
        assert forall|i: int| 0 <= i < es.len() && es[i].0 == k implies last_entry_for(es, k) == Some(es[i].1) by {
            if i < es.len() - 1 {
                assert(es[i].0 < es.last().0);
                assert(d[i] == es[i]);
            }
        }
        if forall|i: int| 0 <= i < es.len() ==> es[i].0 != k {
            assert(es.last().0 != k);
            assert forall|i: int| 0 <= i < d.len() implies d[i].0 != k by {
                assert(d[i] == es[i]);
            }
        }
    }
}

/// The first of `ks` whose class has the root `r` (or `r` when there is none).
pub open spec fn first_member(c: ClassesModel, ks: Seq<u32>, r: u32) -> u32
    decreases ks.len(),
{
    if ks.len() == 0 {
        r
    } else if root_in(c, ks[0]) == r {
        ks[0]
    } else {
        first_member(c, ks.drop_first(), r)
    }
}

pub proof fn lemma_first_member(c: ClassesModel, ks: Seq<u32>, r: u32, j: int)
    requires
        0 <= j < ks.len(),
        root_in(c, ks[j]) == r,
        forall|i: int| 0 <= i < j ==> root_in(c, ks[i]) != r,
    ensures
        first_member(c, ks, r) == ks[j],
    decreases j,
{
    if j > 0 {
        assert(root_in(c, ks[0]) != r);
        assert forall|i: int| 0 <= i < j - 1 implies root_in(c, ks.drop_first()[i]) != r by {
            assert(ks.drop_first()[i] == ks[i + 1]);
        }
        lemma_first_member(c, ks.drop_first(), r, j - 1);
    }
}

/// When the first of every pair is `g` of its second, the name of a variable named
/// second in some pair is `g` of it.
pub proof fn lemma_alias_rep(pairs: Seq<(u32, u32)>, g: spec_fn(u32) -> u32, v: u32)
    requires
        forall|i: int| 0 <= i < pairs.len() ==> #[trigger] pairs[i].0 == g(pairs[i].1),
    ensures
        (exists|i: int| 0 <= i < pairs.len() && pairs[i].1 == v) ==> alias_rep(pairs, v) == g(v),
        (forall|i: int| 0 <= i < pairs.len() ==> pairs[i].1 != v) ==> alias_rep(pairs, v) == v,
    decreases pairs.len(),
{
    if pairs.len() > 0 {
        let d = pairs.drop_last();
        assert forall|i: int| 0 <= i < d.len() implies #[trigger] d[i].0 == g(d[i].1) by {
            assert(d[i] == pairs[i]);
            assert(pairs[i].0 == g(pairs[i].1));
        }
        lemma_alias_rep(d, g, v);
        assert(pairs[pairs.len() - 1].0 == g(pairs[pairs.len() - 1].1));
        if exists|i: int| 0 <= i < pairs.len() && pairs[i].1 == v {
            let i = choose|i: int| 0 <= i < pairs.len() && pairs[i].1 == v;
            if pairs.last().1 != v {
                assert(d[i] == pairs[i]);
            }
        }
        if forall|i: int| 0 <= i < pairs.len() ==> pairs[i].1 != v {
            assert(pairs[pairs.len() - 1].1 != v);
            assert forall|i: int| 0 <= i < d.len() implies d[i].1 != v by {
                assert(d[i] == pairs[i]);
            }
        }
    }
}


/// What the class of `v` resolves to: the resolved term of its root, if it has one.
/// The first member of a class that has members is a member of it.
pub proof fn lemma_first_member_root(c: ClassesModel, ks: Seq<u32>, r: u32, j: int)
    requires
        0 <= j < ks.len(),
        root_in(c, ks[j]) == r,
    ensures
        root_in(c, first_member(c, ks, r)) == r,
        ks.contains(first_member(c, ks, r)),
    decreases ks.len(),
{
    if root_in(c, ks[0]) != r {
        assert(j > 0);
        assert(ks.drop_first()[j - 1] == ks[j]);
        lemma_first_member_root(c, ks.drop_first(), r, j - 1);
        let m = first_member(c, ks.drop_first(), r);
        let k = choose|k: int| 0 <= k < ks.drop_first().len() && ks.drop_first()[k] == m;
        assert(ks[k + 1] == m);
    } else {
        assert(ks[0] == ks[0]);
    }
}

/// A class no member of which is listed is named by its root.
pub proof fn lemma_first_member_absent(c: ClassesModel, ks: Seq<u32>, r: u32)
    requires
        forall|j: int| 0 <= j < ks.len() ==> root_in(c, ks[j]) != r,
    ensures
        first_member(c, ks, r) == r,
    decreases ks.len(),
{
    if ks.len() > 0 {
        assert forall|j: int| 0 <= j < ks.drop_first().len() implies root_in(c, ks.drop_first()[j]) != r by {
            assert(ks.drop_first()[j] == ks[j + 1]);
        }
        lemma_first_member_absent(c, ks.drop_first(), r);
    }
}

pub open spec fn expected_binding(c: ClassesModel, v: u32) -> Option<TermModel> {
    if c.terms.contains_key(root_in(c, v)) {
        Some(resolved_root(c, root_in(c, v))->Ok_0)
    } else {
        None
    }
}

impl EquivalenceClasses {
    /// The resolved term of every class that has one, keyed by its root.
    fn resolve_roots(&self) -> (r: Result<BTreeMap<u32, Term>, UnificationError>)
        requires
            self.wf(),
        ensures
            match r {
                Ok(m) => {
                    &&& forall|k: u32| #[trigger] m@.contains_key(k) <==> self.model().terms.contains_key(k)
                    &&& forall|k: u32| #[trigger] m@.contains_key(k) ==> resolved_root(self.model(), k) == Ok::<TermModel, UnificationError>(m@[k]@)
                },
                Err(e) => e == UnificationError::CyclicReference
                    && exists|k: u32| #[trigger] self.model().terms.contains_key(k) && resolved_root(self.model(), k) is Err,
            },
    {
        let ghost c = self.model();
        let mut m: BTreeMap<u32, Term> = BTreeMap::new();
        let mut k: usize = 0;
        while k < self.known.len()
            invariant
                k <= self.known@.len(),
                self.wf(),
                c == self.model(),
                forall|x: u32| #[trigger] m@.contains_key(x) <==> (c.terms.contains_key(x) && exists|i: int| 0 <= i < k && self.known@[i] == x),
                forall|x: u32| #[trigger] m@.contains_key(x) ==> resolved_root(c, x) == Ok::<TermModel, UnificationError>(m@[x]@),
            decreases self.known@.len() - k,
        {
            let r = self.known[k];
            match self.root_to_term.get(&r) {
                Some(t) => {
                    let mut visiting: Vec<u32> = Vec::new();
                    proof {
                        assert(visiting@.to_set() =~= Set::<u32>::empty());
                        assert(c.terms[r] == t@);
                        lemma_resolution_error_cyclic(c, t@, Set::empty());
                    }
                    let resolved = match self.resolve_term(t, &mut visiting) {
                        Ok(u) => u,
                        Err(e) => {
                            proof {
                                assert(c.terms.contains_key(r) && resolved_root(c, r) is Err);
                            }
                            return Err(e);
                        },
                    };
                    m.insert(r, resolved);
                    proof {
                        assert forall|x: u32| #[trigger] m@.contains_key(x) <==> (c.terms.contains_key(x) && exists|i: int| 0 <= i < k + 1 && self.known@[i] == x) by {
                            if x == r {
                                assert(self.known@[k as int] == x);
                            } else if c.terms.contains_key(x) && exists|i: int| 0 <= i < k + 1 && self.known@[i] == x {
                                let i = choose|i: int| 0 <= i < k + 1 && self.known@[i] == x;
                                assert(i < k);
                            }
                        }
                    }
                },
                None => {
                    proof {
                        assert forall|x: u32| #[trigger] m@.contains_key(x) <==> (c.terms.contains_key(x) && exists|i: int| 0 <= i < k + 1 && self.known@[i] == x) by {
                            if c.terms.contains_key(x) && exists|i: int| 0 <= i < k + 1 && self.known@[i] == x {
                                let i = choose|i: int| 0 <= i < k + 1 && self.known@[i] == x;
                                if i == k {
                                    assert(x == r);
                                }
                            }
                        }
                    }
                },
            }
            k += 1;
        }
        proof {
            assert forall|x: u32| #[trigger] m@.contains_key(x) <==> c.terms.contains_key(x) by {
                if c.terms.contains_key(x) {
                    assert(c.parent.contains_key(x));
                    assert(self.known@.to_set().contains(x));
                    let i = choose|i: int| 0 <= i < self.known@.len() && self.known@[i] == x;
                }
            }
        }
        Ok(m)
    }

    /// An entry for every known variable, in increasing order: the resolved term of its
    /// class, if it has one.
    fn build_entries(&self, resolved: &BTreeMap<u32, Term>) -> (r: Vec<(VariableId, Option<Term>)>)
        requires
            self.wf(),
            forall|k: u32| #[trigger] resolved@.contains_key(k) <==> self.model().terms.contains_key(k),
            forall|k: u32| #[trigger] resolved@.contains_key(k) ==> resolved_root(self.model(), k) == Ok::<TermModel, UnificationError>(resolved@[k]@),
        ensures
            r@.len() == self.known_vars().len(),
            forall|i: int| 0 <= i < r@.len() ==> #[trigger] entry_model(r@[i]) == (self.known_vars()[i], expected_binding(self.model(), self.known_vars()[i])),
    {
        let ghost c = self.model();
        let mut out: Vec<(VariableId, Option<Term>)> = Vec::new();
        let mut i: usize = 0;
        while i < self.known.len()
            invariant
                i <= self.known@.len(),
                self.wf(),
                c == self.model(),
                out@.len() == i,
                forall|k: u32| #[trigger] resolved@.contains_key(k) <==> c.terms.contains_key(k),
                forall|k: u32| #[trigger] resolved@.contains_key(k) ==> resolved_root(c, k) == Ok::<TermModel, UnificationError>(resolved@[k]@),
                forall|j: int| 0 <= j < i ==> #[trigger] entry_model(out@[j]) == (self.known@[j], expected_binding(c, self.known@[j])),
            decreases self.known@.len() - i,
        {
            let v = self.known[i];
            proof {
                assert(self.known@.to_set().contains(v));
            }
            let root = self.root_of(v).unwrap();
            let b = match resolved.get(&root) {
                Some(t) => {
                    proof {
                        assert(resolved@.contains_key(root));
                        assert(resolved_root(c, root) == Ok::<TermModel, UnificationError>(t@));
                        assert(expected_binding(c, v) == Some(t@));
                    }
                    Some(t.clone())
                },
                None => {
                    proof {
                        assert(!resolved@.contains_key(root));
                        assert(expected_binding(c, v) is None);
                    }
                    None
                },
            };
            out.push((VariableId(v), b));
            proof {
                assert(entry_model(out@[i as int]) == (self.known@[i as int], expected_binding(c, self.known@[i as int])));
            }
            i += 1;
        }
        out
    }
}


/// The first of every pair is the first known member of the class of its second, and
/// differs from it.
pub open spec fn pairs_name_first_members(c: ClassesModel, known: Seq<u32>, pairs: Seq<(VariableId, VariableId)>) -> bool {
    forall|i: int| 0 <= i < pairs.len() ==> {
        &&& #[trigger] pairs[i].0.0 == first_member(c, known, root_in(c, pairs[i].1.0))
        &&& pairs[i].0.0 != pairs[i].1.0
    }
}

/// Whether the class with root `x` comes before `known[k]` (every class, once `k` has
/// passed the end).
pub open spec fn class_before(known: Seq<u32>, k: int, x: u32) -> bool {
    k >= known.len() || x < known[k]
}

/// Every known variable that is not the first member of its class, in a class before
/// `known[k]` or, among the first `j` known variables, in the class of `r`, is named
/// second in a pair.
pub open spec fn pairs_cover(c: ClassesModel, known: Seq<u32>, pairs: Seq<(VariableId, VariableId)>, k: int, r: u32, j: int) -> bool {
    forall|j2: int|
        0 <= j2 < known.len() && (class_before(known, k, root_in(c, #[trigger] known[j2])) || (j2 < j && root_in(c, known[j2]) == r))
            && known[j2] != first_member(c, known, root_in(c, known[j2])) ==> exists|i: int| 0 <= i < pairs.len() && pairs[i].1.0 == known[j2]
}

impl EquivalenceClasses {
    /// The aliases of every class, root after root in increasing order: the first member
    /// of the class paired with each other member, in increasing order.
    #[verifier::spinoff_prover]
    #[verifier::rlimit(40)]
    fn build_alias_pairs(&self) -> (r: Vec<(VariableId, VariableId)>)
        requires
            self.wf(),
        ensures
            pairs_name_first_members(self.model(), self.known_vars(), r@),
            pairs_cover(self.model(), self.known_vars(), r@, self.known_vars().len() as int, 0, 0),
            self.known_vars().len() == 0 ==> r@.len() == 0,
    {
        let ghost c = self.model();
        let ghost known = self.known@;
        let n = self.known.len();
        let mut pairs: Vec<(VariableId, VariableId)> = Vec::new();
        let mut k: usize = 0;
        proof {
            assert forall|j2: int|
                0 <= j2 < known.len() && (class_before(known, 0, root_in(c, #[trigger] known[j2])) || (j2 < 0 && root_in(c, known[j2]) == 0u32))
                    && known[j2] != first_member(c, known, root_in(c, known[j2])) implies exists|i: int| 0 <= i < pairs@.len() && pairs@[i].1.0 == known[j2] by {
                let x = root_in(c, known[j2]);
                assert(known.to_set().contains(known[j2]));
                lemma_root(c, known[j2]);
                assert(known.to_set().contains(x));
                let k1 = choose|k1: int| 0 <= k1 < known.len() && known[k1] == x;
                if k1 > 0 {
                    assert(known[0] < known[k1]);
                }
            }
        }
        while k < n
            invariant
                k <= n,
                n == known.len(),
                self.wf(),
                c == self.model(),
                known == self.known@,
                pairs_name_first_members(c, known, pairs@),
                pairs_cover(c, known, pairs@, k as int, 0, 0),
                k == 0 ==> pairs@.len() == 0,
            decreases n - k,
        {
            let r = self.known[k];
            proof {
                assert(known.to_set().contains(r));
            }
            let rr = self.root_of(r).unwrap();
            let ghost pk = pairs@;
            if rr == r {
                let mut first: Option<u32> = None;
                let ghost mut jf: int = 0;
                let mut j: usize = 0;
                while j < n
                    invariant
                        k < n,
                        j <= n,
                        n == known.len(),
                        self.wf(),
                        c == self.model(),
                        known == self.known@,
                        r == known[k as int],
                        increasing(known),
                        pairs_name_first_members(c, known, pairs@),
                        first is None <==> forall|j1: int| 0 <= j1 < j ==> root_in(c, known[j1]) != r,
                        first matches Some(f) ==> 0 <= jf < j && f == known[jf] && f == first_member(c, known, r),
                        pairs_cover(c, known, pairs@, k as int, r, j as int),
                    decreases n - j,
                {
                    let m = self.known[j];
                    proof {
                        assert(known.to_set().contains(m));
                    }
                    let rm = self.root_of(m).unwrap();
                    let ghost p0 = pairs@;
                    let ghost first0 = first;
                    if rm == r {
                        match first {
                            None => {
                                proof {
                                    lemma_first_member(c, known, r, j as int);
                                    jf = j as int;
                                }
                                first = Some(m);
                            },
                            Some(f) => {
                                proof {
                                    assert(known[jf] < known[j as int]);
                                }
                                pairs.push((VariableId(f), VariableId(m)));
                                proof {
                                    let np = pairs@;
                                    assert forall|i: int| 0 <= i < np.len() implies {
                                        &&& #[trigger] np[i].0.0 == first_member(c, known, root_in(c, np[i].1.0))
                                        &&& np[i].0.0 != np[i].1.0
                                    } by {
                                        if i < p0.len() {
                                            assert(np[i] == p0[i]);
                                        }
                                    }
                                }
                            },
                        }
                    }
                    proof {
                        assert forall|j2: int|
                            0 <= j2 < known.len() && (class_before(known, k as int, root_in(c, #[trigger] known[j2])) || (j2 < j + 1 && root_in(c, known[j2]) == r))
                                && known[j2] != first_member(c, known, root_in(c, known[j2])) implies exists|i: int| 0 <= i < pairs@.len() && pairs@[i].1.0 == known[j2] by {
                            if class_before(known, k as int, root_in(c, known[j2])) || (j2 < j && root_in(c, known[j2]) == r) {
                                let i = choose|i: int| 0 <= i < p0.len() && p0[i].1.0 == known[j2];
                                assert(pairs@[i] == p0[i]);
                            } else {
                                assert(j2 == j);
                                assert(first0 is Some);
                                assert(pairs@[pairs@.len() - 1].1.0 == known[j2]);
                            }
                        }
                    }
                    j += 1;
                }
            }
            proof {
                assert forall|j2: int|
                    0 <= j2 < known.len() && (class_before(known, k + 1, root_in(c, #[trigger] known[j2])) || (j2 < 0 && root_in(c, known[j2]) == 0u32))
                        && known[j2] != first_member(c, known, root_in(c, known[j2])) implies exists|i: int| 0 <= i < pairs@.len() && pairs@[i].1.0 == known[j2] by {
                    let x = root_in(c, known[j2]);
                    assert(known.to_set().contains(known[j2]));
                    lemma_root(c, known[j2]);
                    assert(known.to_set().contains(x));
                    let k1 = choose|k1: int| 0 <= k1 < known.len() && known[k1] == x;
                    if k1 > k {
                        assert(known[k as int + 1] <= known[k1]);
                    }
                    if k1 < k {
                        assert(known[k1] < known[k as int]);
                        assert(class_before(known, k as int, x));
                    } else if k1 == k {
                        assert(x == r);
                        assert(root_in(c, r) == r);
                    }
                }
            }
            k += 1;
        }
        pairs
    }
}


impl ConstraintSolver {
    /// The bindings of the classes once no constraint is pending: each known variable,
    /// in increasing order, with the resolved term of its class if it has one, and the
    /// aliases of every class.
    fn finalize(&self) -> (r: Result<Bindings, UnificationError>)
        requires
            self.inv(),
            self.queue@.len() == 0,
        ensures
            match r {
                Ok(b) => satisfies(b.solution(), self.given()) && b.idempotent() && crate::bindings::well_kept(b),
                Err(e) => e == UnificationError::CyclicReference && forall|f: spec_fn(u32) -> TermModel| !#[trigger] satisfies(f, self.given()),
            },
            self.classes.known_vars().len() == 0 ==> (r matches Ok(b) && b.entries().len() == 0 && b.alias_pairs().len() == 0),
            self.fresh_ground() ==> r is Ok,
            r matches Ok(b) ==> forall|f: spec_fn(u32) -> TermModel| #[trigger] satisfies(f, self.given()) ==> satisfies(f, b.constraints()),
            ground_class_terms(self.classes.model()) && r is Ok ==> crate::bindings::ground_entries(r->Ok_0),
    {
        let ghost c = self.classes.model();
        let ghost known = self.classes.known_vars();
        let resolved = match self.classes.resolve_roots() {
            Ok(m) => m,
            Err(e) => {
                proof {
                    let k = choose|k: u32| #[trigger] c.terms.contains_key(k) && resolved_root(c, k) is Err;
                    if self.fresh_ground() {
                        lemma_resolution_ground(c, c.terms[k], Set::empty());
                    }
                    assert(c.parent.contains_key(k));
                    assert(self.classes.known_vars().to_set().contains(k));
                    assert forall|f: spec_fn(u32) -> TermModel| !#[trigger] satisfies(f, self.given()) by {
                        if satisfies(f, self.given()) {
                            assert(constraints_model(self.queue@) =~= Seq::<(u32, TermModel)>::empty());
                            assert(holds(f, c, constraints_model(self.queue@)));
                            lemma_resolution_without_cycle(f, c, c.terms[k], Set::empty());
                        }
                    }
                }
                return Err(e);
            },
        };
        let entries = self.classes.build_entries(&resolved);
        let pairs = self.classes.build_alias_pairs();
        let ghost pv = pairs@;
        let b = Bindings::new(entries, AliasMap::new(pairs));
        proof {
            let es = b.entries();
            assert(es == entries@.map_values(|e: (VariableId, Option<Term>)| entry_model(e)));
            assert forall|i: int| 0 <= i < es.len() implies #[trigger] es[i] == (known[i], expected_binding(c, known[i])) by {
                assert(es[i] == entry_model(entries@[i]));
            }
            assert forall|i: int, j: int| 0 <= i < j < es.len() implies es[i].0 < es[j].0 by {
                assert(es[i] == (known[i], expected_binding(c, known[i])));
                assert(es[j] == (known[j], expected_binding(c, known[j])));
            }
            let pm = b.alias_pairs();
            assert(pm == pv.map_values(|p: (VariableId, VariableId)| (p.0.0, p.1.0)));
            let g = |x: u32| first_member(c, known, root_in(c, x));
            assert forall|i: int| 0 <= i < pm.len() implies #[trigger] pm[i].0 == g(pm[i].1) by {
                assert(pm[i] == (pv[i].0.0, pv[i].1.0));
                assert(pv[i].0.0 == first_member(c, known, root_in(c, pv[i].1.0)));
            }
            // What the bindings say of each variable.
            assert forall|x: u32| #[trigger] b.binding(x) == if c.parent.contains_key(x) { Some(expected_binding(c, x)) } else { None::<Option<TermModel>> } by {
                lemma_last_entry_increasing(es, x);
                if c.parent.contains_key(x) {
                    assert(known.to_set().contains(x));
                    let i = choose|i: int| 0 <= i < known.len() && known[i] == x;
                    assert(es[i] == (known[i], expected_binding(c, known[i])));
                } else {
                    assert forall|i: int| 0 <= i < es.len() implies es[i].0 != x by {
                        assert(es[i] == (known[i], expected_binding(c, known[i])));
                        assert(known.to_set().contains(known[i]));
                    }
                }
            }
            // The name of each known variable is the first member of its class.
            assert forall|v: u32| #[trigger] c.parent.contains_key(v) implies b.representative(v) == g(v) by {
                lemma_alias_rep(pm, g, v);
                assert(known.to_set().contains(v));
                let j = choose|j: int| 0 <= j < known.len() && known[j] == v;
                if v != g(v) {
                    assert(pairs_cover(c, known, pv, known.len() as int, 0, 0));
                    assert(class_before(known, known.len() as int, root_in(c, known[j])));
                    let i = choose|i: int| 0 <= i < pv.len() && pv[i].1.0 == known[j];
                    assert(pm[i].1 == v);
                } else {
                    assert forall|i: int| 0 <= i < pm.len() implies pm[i].1 != v by {
                        assert(pm[i] == (pv[i].0.0, pv[i].1.0));
                        assert(pv[i].0.0 != pv[i].1.0);
                        assert(pm[i].0 == g(pm[i].1));
                    }
                }
            }
            let theta = b.solution();
            let ren = b.renaming();
            assert forall|v: u32| #[trigger] c.parent.contains_key(v) implies ren(v) == ren(root_in(c, v)) by {
                lemma_root(c, v);
                let rv = root_in(c, v);
                assert(c.parent.contains_key(rv));
                assert(root_in(c, rv) == rv);
                assert(b.representative(v) == g(v));
                assert(b.representative(rv) == g(rv));
            }
            assert forall|x: u32| #[trigger] theta(x) == if c.parent.contains_key(x) && c.terms.contains_key(root_in(c, x)) {
                apply(ren, resolved_root(c, root_in(c, x))->Ok_0)
            } else {
                ren(x)
            } by {
                assert(b.binding(x) == if c.parent.contains_key(x) { Some(expected_binding(c, x)) } else { None::<Option<TermModel>> });
            }
            assert forall|r: u32| #[trigger] c.terms.contains_key(r) implies resolved_root(c, r) is Ok by {
                assert(resolved@.contains_key(r));
            }
            lemma_classes_solution(c, theta, ren);
            assert forall|v: u32, x: u32|
                #![trigger b.bound_term(v), b.bound_term(x)]
                b.bound_term(v) is Some && term_variables(b.bound_term(v)->Some_0).contains(x) implies b.bound_term(x) is None by {
                assert(b.binding(v) == if c.parent.contains_key(v) { Some(expected_binding(c, v)) } else { None::<Option<TermModel>> });
                assert(b.binding(x) == if c.parent.contains_key(x) { Some(expected_binding(c, x)) } else { None::<Option<TermModel>> });
                let r = root_in(c, v);
                assert(c.terms.contains_key(r));
                assert(resolved_root(c, r) is Ok);
                lemma_resolution_variables(c, c.terms[r], Set::empty());
                assert(term_variables(resolved_root(c, r)->Ok_0).contains(x));
            }
            assert(constraints_model(self.queue@) =~= Seq::<(u32, TermModel)>::empty());
            assert(holds(theta, c, constraints_model(self.queue@)));
            // Aliased variables are of one class: bound alike and named alike.
            assert forall|i: int| 0 <= i < pm.len() implies {
                &&& b.bound_term((#[trigger] pm[i]).0) == b.bound_term(pm[i].1)
                &&& b.representative(pm[i].0) == b.representative(pm[i].1)
                &&& c.parent.contains_key(pm[i].0)
                &&& c.parent.contains_key(pm[i].1)
                &&& root_in(c, pm[i].0) == root_in(c, pm[i].1)
            } by {
                let v = pm[i].1;
                assert(pm[i] == (pv[i].0.0, pv[i].1.0));
                assert(pm[i].0 == g(v));
                assert(pm[i].0 != v);
                if !c.parent.contains_key(v) {
                    assert(root_in(c, v) == v);
                    if exists|j: int| 0 <= j < known.len() && root_in(c, known[j]) == v {
                        let j = choose|j: int| 0 <= j < known.len() && root_in(c, known[j]) == v;
                        assert(known.to_set().contains(known[j]));
                        lemma_root(c, known[j]);
                    } else {
                        lemma_first_member_absent(c, known, v);
                    }
                }
                assert(c.parent.contains_key(v));
                assert(known.to_set().contains(v));
                let jv = choose|j: int| 0 <= j < known.len() && known[j] == v;
                lemma_first_member_root(c, known, root_in(c, v), jv);
                let a = g(v);
                assert(known.contains(a));
                let ja = choose|j: int| 0 <= j < known.len() && known[j] == a;
                assert(known.to_set().contains(a));
                assert(c.parent.contains_key(a));
                assert(root_in(c, a) == root_in(c, v));
                assert(b.representative(a) == g(a));
                assert(b.representative(v) == g(v));
                assert(b.binding(a) == Some(expected_binding(c, a)));
                assert(b.binding(v) == Some(expected_binding(c, v)));
            }
            assert(crate::bindings::well_kept(b));
            assert forall|i: int| 0 <= i < known.len() implies c.parent.contains_key(#[trigger] known[i]) by {
                assert(known.to_set().contains(known[i]));
            }
            assert forall|f: spec_fn(u32) -> TermModel| #[trigger] satisfies(f, self.given()) implies satisfies(f, b.constraints()) by {
                assert(holds(f, c, constraints_model(self.queue@)));
                lemma_classes_most_general(f, c, known, es, pm);
            }
            if ground_class_terms(c) {
                assert forall|i: int| 0 <= i < es.len() implies ((#[trigger] es[i]).1 matches Some(t) ==> ground(t)) by {
                    assert(es[i] == (known[i], expected_binding(c, known[i])));
                    let r = root_in(c, known[i]);
                    if c.terms.contains_key(r) {
                        lemma_resolution_ground_same(c, c.terms[r], Set::empty());
                    }
                }
            }
        }
        Ok(b)
    }

    /// Solves the constraints handed in: bindings under which every one of them holds,
    /// or why none exist.
    pub(crate) fn solve(self) -> (r: Result<Bindings, UnificationError>)
        requires
            self.inv(),
        ensures
            match r {
                Ok(b) => satisfies(b.solution(), self.given()) && b.idempotent() && crate::bindings::well_kept(b),
                Err(e) => e != UnificationError::StepLimitReached ==> forall|f: spec_fn(u32) -> TermModel| !#[trigger] satisfies(f, self.given()),
            },
            self.is_empty() ==> (r matches Ok(b) && b.entries().len() == 0 && b.alias_pairs().len() == 0),
            self.fresh_ground() ==> r is Ok,
            self.fresh_queue() ==> r is Ok || r == Err::<Bindings, UnificationError>(UnificationError::CyclicReference),
            self.ground_pending() ==> r != Err::<Bindings, UnificationError>(UnificationError::StepLimitReached),
            r matches Ok(b) ==> forall|f: spec_fn(u32) -> TermModel| #[trigger] satisfies(f, self.given()) ==> satisfies(f, b.constraints()),
            self.ground_pending() && r is Ok ==> crate::bindings::ground_entries(r->Ok_0),
            (exists|f: spec_fn(u32) -> TermModel| #[trigger] satisfies(f, self.given()) && weight(f, self.pending()) < u64::MAX) ==> r is Ok,
    {
        let mut solver = self;
        if solver.queue.len() == 0 {
            return solver.finalize();
        }
        solver.process_constraints()?;
        solver.finalize()
    }
}


impl ConstraintSolver {
    /// Takes in that two variables are aliases: the constraint that the first stands for
    /// the second.
    pub(crate) fn register_alias(&mut self, var1: VariableId, var2: VariableId) -> (r: Result<(), UnificationError>)
        requires
            old(self).inv(),
        ensures
            r is Ok ==> final(self).inv() && final(self).given() == old(self).given().push((var1.0, TermModel::Variable(var2.0))),
            r matches Err(e) ==> e != UnificationError::CyclicReference && e != UnificationError::StepLimitReached && forall|f: spec_fn(u32) -> TermModel| !#[trigger] satisfies(f, old(self).given().push((var1.0, TermModel::Variable(var2.0)))),
            old(self).ground_pending() && r is Ok ==> final(self).ground_pending(),
            forall|f: spec_fn(u32) -> TermModel| #[trigger] satisfies(f, old(self).given().push((var1.0, TermModel::Variable(var2.0))))
                ==> weight(f, final(self).pending()) < weight(f, old(self).pending()) + term_size(f(var2.0)),
    {
        let ghost g = self.given@;
        let ghost c0 = self.classes.model();
        let ghost q0 = constraints_model(self.queue@);
        let ghost cv = (var1.0, TermModel::Variable(var2.0));
        let res = self.classes.merge(var1.0, var2.0, &mut self.queue);
        proof {
            assert forall|f: spec_fn(u32) -> TermModel| #[trigger] satisfies(f, g.push(cv)) <==> (satisfies(f, g) && f(var1.0) == f(var2.0)) by {
                lemma_satisfies_concat(f, g, seq![cv]);
                assert(g.push(cv) =~= g + seq![cv]);
                assert(seq![cv][0] == cv);
                assert(apply(f, cv.1) == f(var2.0));
                let one = seq![cv];
                if f(var1.0) == f(var2.0) {
                    assert forall|i: int| 0 <= i < one.len() implies #[trigger] f(one[i].0) == apply(f, one[i].1) by {
                        assert(one[i] == cv);
                    }
                }
                if satisfies(f, one) {
                    assert(f(one[0].0) == apply(f, one[0].1));
                }
            }
            assert forall|f: spec_fn(u32) -> TermModel| #[trigger] satisfies(f, g.push(cv))
                implies weight(f, constraints_model(self.queue@)) < weight(f, q0) + term_size(f(var2.0)) by {
                assert(holds(f, c0, q0) <==> satisfies(f, g));
                assert(holds(f, c0, q0));
            }
            if res is Ok {
                assert forall|f: spec_fn(u32) -> TermModel| #[trigger] holds(f, self.classes.model(), constraints_model(self.queue@)) <==> satisfies(f, g.push(cv)) by {
                    assert(holds(f, c0, q0) <==> satisfies(f, g));
                }
            } else {
                assert forall|f: spec_fn(u32) -> TermModel| !#[trigger] satisfies(f, g.push(cv)) by {
                    if satisfies(f, g.push(cv)) {
                        assert(holds(f, c0, q0));
                    }
                }
            }
        }
        self.given = Ghost(g.push(cv));
        res
    }
}


/// The variable has a class whose term replaces it in resolutions.
pub open spec fn resolvable(c: ClassesModel, x: u32) -> bool {
    c.parent.contains_key(x) && c.terms.contains_key(root_in(c, x))
}

/// No variable of the term has a class term that would replace it.
pub open spec fn unresolvable_term(c: ClassesModel, u: TermModel) -> bool {
    forall|x: u32| #[trigger] term_variables(u).contains(x) ==> !resolvable(c, x)
}

/// A resolution leaves no variable that a class term would replace.
pub proof fn lemma_resolution_variables(c: ClassesModel, t: TermModel, vis: Set<u32>)
    requires
        classes_wf(c),
        resolution(c, t, vis) is Ok,
    ensures
        unresolvable_term(c, resolution(c, t, vis)->Ok_0),
    decreases c.terms.dom().difference(vis).len(), t,
{
    match t {
        TermModel::Variable(v) => {
            assert(c.terms.dom().subset_of(c.parent.dom()));
            vstd::set_lib::lemma_set_subset_finite(c.parent.dom(), c.terms.dom());
            if c.parent.contains_key(v) && c.terms.contains_key(root_in(c, v)) {
                let r = root_in(c, v);
                lemma_difference_shrinks(c.terms.dom(), vis, r);
                assert(!vis.contains(r));
                assert(resolution(c, t, vis) == resolution(c, c.terms[r], vis.insert(r)));
                lemma_resolution_variables(c, c.terms[r], vis.insert(r));
                assert(unresolvable_term(c, resolution(c, c.terms[r], vis.insert(r))->Ok_0));
            } else {
                assert(resolution(c, t, vis) == Ok::<TermModel, UnificationError>(t));
                assert forall|y: u32| #[trigger] term_variables(resolution(c, t, vis)->Ok_0).contains(y) implies !resolvable(c, y) by {
                    assert(term_variables(TermModel::Variable(v)) == set![v]);
                }
            }
            assert(unresolvable_term(c, resolution(c, t, vis)->Ok_0));
        },
        TermModel::List(items) => {
            lemma_resolution_all_variables(c, items, vis);
            let us = resolution_all(c, items, vis)->Ok_0;
            assert(resolution(c, t, vis)->Ok_0 == TermModel::List(us));
            assert forall|y: u32| #[trigger] term_variables(TermModel::List(us)).contains(y) implies !resolvable(c, y) by {
                assert(terms_variables(us).contains(y));
            }
        },
        TermModel::Literal(l) => match l.structure.arguments {
            Some(a) => {
                lemma_resolution_all_variables(c, a, vis);
                let us = resolution_all(c, a, vis)->Ok_0;
                let r = resolution(c, t, vis)->Ok_0;
                assert(r == TermModel::Literal(LiteralModel { negated: l.negated, structure: StructureModel { functor: l.structure.functor, arguments: Some(us) } }));
                assert forall|y: u32| #[trigger] term_variables(r).contains(y) implies !resolvable(c, y) by {
                    assert(terms_variables(us).contains(y));
                }
            },
            None => {
                assert(resolution(c, t, vis)->Ok_0 == t);
                assert(term_variables(t) =~= Set::<u32>::empty());
            },
        },
        _ => {
            assert(resolution(c, t, vis)->Ok_0 == t);
            assert(term_variables(t) =~= Set::<u32>::empty());
        },
    }
}

pub proof fn lemma_resolution_all_variables(c: ClassesModel, ts: Seq<TermModel>, vis: Set<u32>)
    requires
        classes_wf(c),
        resolution_all(c, ts, vis) is Ok,
    ensures
        forall|x: u32| #[trigger] terms_variables(resolution_all(c, ts, vis)->Ok_0).contains(x) ==> !resolvable(c, x),
    decreases c.terms.dom().difference(vis).len(), ts,
{
    if ts.len() > 0 {
        lemma_resolution_all_variables(c, ts.drop_last(), vis);
        lemma_resolution_variables(c, ts.last(), vis);
        let us1 = resolution_all(c, ts.drop_last(), vis)->Ok_0;
        let u = resolution(c, ts.last(), vis)->Ok_0;
        let us = us1.push(u);
        lemma_terms_variables_take(us, us1.len() as int);
        assert(us.take(us1.len() as int) =~= us1);
        assert(us.take(us1.len() as int + 1) =~= us);
    } else {
        assert(terms_variables(Seq::<TermModel>::empty()) == Set::<u32>::empty());
    }
}

} // verus!
