//! The constraints under which two terms are equal.

use vstd::prelude::*;

use crate::bytestring::bstring_eq;
use crate::literal::Literal;
use crate::term::{all_ground, argument_terms, ground, Structure, StructureModel, Term, TermModel, terms_model};
use crate::bindings::solver::{lemma_constraints_weight, lemma_structure_weight, lemma_weight_concat, lemma_weight_single, term_size, terms_size, weight};
use crate::variable::Variable;

use crate::bindings::{distinct_ground, distinct_nonvar, ground_entries, optional_constraints, optional_ground, starts_empty, well_kept, Bindings};

use super::constraint::{constraints_model, BindingConstraint};
use super::error::UnificationError;
use super::substitution::{apply, apply_all, lemma_constraints_clash, lemma_structure_constraints_clash, lemma_constraints_exact, lemma_satisfies_concat, lemma_structure_constraints_exact, satisfies};

verus! {

broadcast use vstd::std_specs::vec::group_vec_axioms;

/// The constraints under which two terms are equal, or the first reason (from left
/// to right) they never are. A variable on either side is bound to the other side.
pub open spec fn term_constraints(a: TermModel, b: TermModel) -> Result<Seq<(u32, TermModel)>, UnificationError>
    decreases a,
{
    match a {
        TermModel::Variable(v) => Ok(seq![(v, b)]),
        _ => match b {
            TermModel::Variable(v) => Ok(seq![(v, a)]),
            _ => match (a, b) {
                (TermModel::Number(x), TermModel::Number(y)) => if x == y {
                    Ok(Seq::empty())
                } else {
                    Err(UnificationError::NumberMismatch)
                },
                (TermModel::String(x), TermModel::String(y)) => if x == y {
                    Ok(Seq::empty())
                } else {
                    Err(UnificationError::StringMismatch)
                },
                (TermModel::Literal(l1), TermModel::Literal(l2)) => if l1.negated != l2.negated {
                    Err(UnificationError::NegationMismatch)
                } else {
                    structure_constraints(l1.structure, l2.structure)
                },
                (TermModel::List(x), TermModel::List(y)) => if x.len() != y.len() {
                    Err(UnificationError::ArityMismatch)
                } else {
                    pairwise_constraints(x, y)
                },
                _ => Err(UnificationError::TypeMismatch),
            },
        },
    }
}

/// The constraints of the pairs of terms at the same positions, one pair after the
/// other; the first error stops it.
pub open spec fn pairwise_constraints(xs: Seq<TermModel>, ys: Seq<TermModel>) -> Result<Seq<(u32, TermModel)>, UnificationError>
    decreases xs,
{
    if xs.len() == 0 || ys.len() == 0 {
        Ok(Seq::empty())
    } else {
        match term_constraints(xs[0], ys[0]) {
            Err(e) => Err(e),
            Ok(c) => match pairwise_constraints(xs.drop_first(), ys.drop_first()) {
                Err(e) => Err(e),
                Ok(r) => Ok(c + r),
            },
        }
    }
}

/// The constraints under which two structures are equal.
pub open spec fn structure_constraints(s1: StructureModel, s2: StructureModel) -> Result<Seq<(u32, TermModel)>, UnificationError>
    decreases s1,
{
    if s1.functor != s2.functor {
        Err(UnificationError::FunctorMismatch)
    } else {
        match s1.arguments {
            Some(x) => match s2.arguments {
                Some(y) => if x.len() == y.len() {
                    pairwise_constraints(x, y)
                } else {
                    Err(UnificationError::ArityMismatch)
                },
                None => Err(UnificationError::ArityMismatch),
            },
            None => match s2.arguments {
                Some(_) => Err(UnificationError::ArityMismatch),
                None => Ok(Seq::empty()),
            },
        }
    }
}

/// A term without variables unifies with itself under no constraint.
pub proof fn lemma_ground_self_constraints(t: TermModel)
    requires
        ground(t),
    ensures
        term_constraints(t, t) == Ok::<Seq<(u32, TermModel)>, UnificationError>(Seq::empty()),
    decreases t,
{
    match t {
        TermModel::List(items) => {
            lemma_ground_self_pairwise(items);
        },
        TermModel::Literal(l) => {
            lemma_ground_self_structure(l.structure);
        },
        _ => {},
    }
}

/// A structure whose arguments hold no variable unifies with itself under no constraint.
pub proof fn lemma_ground_self_structure(s: StructureModel)
    requires
        match s.arguments {
            Some(a) => all_ground(a),
            None => true,
        },
    ensures
        structure_constraints(s, s) == Ok::<Seq<(u32, TermModel)>, UnificationError>(Seq::empty()),
    decreases s,
{
    if let Some(a) = s.arguments {
        lemma_ground_self_pairwise(a);
    }
}

pub proof fn lemma_ground_self_pairwise(xs: Seq<TermModel>)
    requires
        all_ground(xs),
    ensures
        pairwise_constraints(xs, xs) == Ok::<Seq<(u32, TermModel)>, UnificationError>(Seq::empty()),
    decreases xs,
{
    if xs.len() > 0 {
        lemma_ground_self_constraints(xs[0]);
        lemma_ground_self_pairwise(xs.drop_first());
        assert(Seq::<(u32, TermModel)>::empty() + Seq::<(u32, TermModel)>::empty() =~= Seq::<(u32, TermModel)>::empty());
    }
}

/// Each constraint gives its variable a term without variables.
pub open spec fn ground_values(cs: Seq<(u32, TermModel)>) -> bool {
    forall|i: int| 0 <= i < cs.len() ==> ground(#[trigger] cs[i].1)
}

/// When one of two terms holds no variable, each of their constraints gives its variable a
/// term without variables; when neither does, there are none.
pub proof fn lemma_ground_side_constraints(a: TermModel, b: TermModel)
    requires
        ground(a) || ground(b),
    ensures
        term_constraints(a, b) matches Ok(cs) ==> ground_values(cs) && (ground(a) && ground(b) ==> cs.len() == 0),
    decreases a,
{
    match a {
        TermModel::Variable(v) => {},
        _ => match b {
            TermModel::Variable(v) => {},
            _ => match (a, b) {
                (TermModel::Literal(l1), TermModel::Literal(l2)) => {
                    if l1.negated == l2.negated {
                        lemma_ground_side_structure(l1.structure, l2.structure);
                    }
                },
                (TermModel::List(x), TermModel::List(y)) => {
                    if x.len() == y.len() {
                        lemma_ground_side_pairwise(x, y);
                    }
                },
                _ => {},
            },
        },
    }
}

/// The same of two structures.
pub proof fn lemma_ground_side_structure(s1: StructureModel, s2: StructureModel)
    requires
        (match s1.arguments { Some(a) => all_ground(a), None => true }) || (match s2.arguments { Some(a) => all_ground(a), None => true }),
    ensures
        structure_constraints(s1, s2) matches Ok(cs) ==> ground_values(cs)
            && ((match s1.arguments { Some(a) => all_ground(a), None => true }) && (match s2.arguments { Some(a) => all_ground(a), None => true }) ==> cs.len() == 0),
    decreases s1,
{
    if s1.functor == s2.functor {
        if let (Some(x), Some(y)) = (s1.arguments, s2.arguments) {
            if x.len() == y.len() {
                lemma_ground_side_pairwise(x, y);
            }
        }
    }
}

/// The same of terms at the same positions.
pub proof fn lemma_ground_side_pairwise(xs: Seq<TermModel>, ys: Seq<TermModel>)
    requires
        all_ground(xs) || all_ground(ys),
    ensures
        pairwise_constraints(xs, ys) matches Ok(cs) ==> ground_values(cs) && (all_ground(xs) && all_ground(ys) ==> cs.len() == 0),
    decreases xs,
{
    if xs.len() > 0 && ys.len() > 0 {
        lemma_ground_side_constraints(xs[0], ys[0]);
        lemma_ground_side_pairwise(xs.drop_first(), ys.drop_first());
        if let Ok(c) = term_constraints(xs[0], ys[0]) {
            if let Ok(r) = pairwise_constraints(xs.drop_first(), ys.drop_first()) {
                assert forall|i: int| 0 <= i < (c + r).len() implies ground(#[trigger] (c + r)[i].1) by {
                    if i < c.len() {
                        assert((c + r)[i] == c[i]);
                    } else {
                        assert((c + r)[i] == r[i - c.len()]);
                    }
                }
            }
        }
    }
}

pub proof fn lemma_pairwise_take(xs: Seq<TermModel>, ys: Seq<TermModel>, i: int)
    requires
        0 <= i < xs.len(),
        xs.len() == ys.len(),
    ensures
        pairwise_constraints(xs.take(i + 1), ys.take(i + 1)) == match pairwise_constraints(xs.take(i), ys.take(i)) {
            Err(e) => Err(e),
            Ok(a) => match term_constraints(xs[i], ys[i]) {
                Err(e) => Err(e),
                Ok(b) => Ok(a + b),
            },
        },
    decreases i,
{
    let x1 = xs.take(i + 1);
    let y1 = ys.take(i + 1);
    assert(x1[0] == xs[0]);
    assert(y1[0] == ys[0]);
    if i == 0 {
        assert(x1.drop_first() =~= Seq::<TermModel>::empty());
        assert(y1.drop_first() =~= Seq::<TermModel>::empty());
        assert(xs.take(0) =~= Seq::<TermModel>::empty());
        assert(pairwise_constraints(x1.drop_first(), y1.drop_first()) == Ok::<Seq<(u32, TermModel)>, UnificationError>(Seq::empty()));
        assert(pairwise_constraints(xs.take(0), ys.take(0)) == Ok::<Seq<(u32, TermModel)>, UnificationError>(Seq::empty()));
        match term_constraints(xs[0], ys[0]) {
            Ok(b) => {
                assert(b + Seq::<(u32, TermModel)>::empty() =~= b);
                assert(Seq::<(u32, TermModel)>::empty() + b =~= b);
            },
            Err(e) => {},
        }
    } else {
        lemma_pairwise_take(xs.drop_first(), ys.drop_first(), i - 1);
        assert(x1.drop_first() =~= xs.drop_first().take(i));
        assert(y1.drop_first() =~= ys.drop_first().take(i));
        assert(xs.take(i)[0] == xs[0]);
        assert(ys.take(i)[0] == ys[0]);
        assert(xs.take(i).drop_first() =~= xs.drop_first().take(i - 1));
        assert(ys.take(i).drop_first() =~= ys.drop_first().take(i - 1));
        assert(xs.drop_first()[i - 1] == xs[i]);
        assert(ys.drop_first()[i - 1] == ys[i]);
        match term_constraints(xs[0], ys[0]) {
            Err(e) => {},
            Ok(a0) => {
                match pairwise_constraints(xs.drop_first().take(i - 1), ys.drop_first().take(i - 1)) {
                    Err(e) => {},
                    Ok(r) => {
                        match term_constraints(xs[i], ys[i]) {
                            Err(e) => {},
                            Ok(b) => {
                                assert(a0 + (r + b) =~= (a0 + r) + b);
                            },
                        }
                    },
                }
            },
        }
    }
}

pub proof fn lemma_pairwise_error_prefix(xs: Seq<TermModel>, ys: Seq<TermModel>, i: int, e: UnificationError)
    requires
        0 <= i <= xs.len(),
        xs.len() == ys.len(),
        pairwise_constraints(xs.take(i), ys.take(i)) == Err::<Seq<(u32, TermModel)>, UnificationError>(e),
    ensures
        pairwise_constraints(xs, ys) == Err::<Seq<(u32, TermModel)>, UnificationError>(e),
    decreases xs.len() - i,
{
    if i == xs.len() {
        assert(xs.take(i) =~= xs);
        assert(ys.take(i) =~= ys);
    } else {
        lemma_pairwise_take(xs, ys, i);
        lemma_pairwise_error_prefix(xs, ys, i + 1, e);
    }
}

/// The constraints of the pairs of terms at the same positions of two lists of equal
/// length.
fn collect_pairwise(a: &Vec<Term>, b: &Vec<Term>) -> (r: Result<Vec<BindingConstraint>, UnificationError>)
    requires
        a.len() == b.len(),
    ensures
        match pairwise_constraints(terms_model(a@), terms_model(b@)) {
            Ok(cs) => r matches Ok(v) && constraints_model(v@) == cs,
            Err(e) => r == Err::<Vec<BindingConstraint>, UnificationError>(e),
        },
    decreases a,
{
    let ghost xs = terms_model(a@);
    let ghost ys = terms_model(b@);
    let mut out: Vec<BindingConstraint> = Vec::new();
    let mut i: usize = 0;
    assert(pairwise_constraints(xs.take(0), ys.take(0)) == Ok::<Seq<(u32, TermModel)>, UnificationError>(Seq::empty()));
    while i < a.len()
        invariant
            i <= a.len(),
            a.len() == b.len(),
            xs == terms_model(a@),
            ys == terms_model(b@),
            pairwise_constraints(xs.take(i as int), ys.take(i as int)) matches Ok(cs) && constraints_model(out@) == cs,
        decreases a.len() - i,
    {
        proof {
            assert(decreases_to!(*a => a[i as int]));
            lemma_pairwise_take(xs, ys, i as int);
        }
        match a[i].collect_constraints(&b[i]) {
            Ok(more) => {
                let ghost before = out@;
                let mut more = more;
                let ghost m = more@;
                out.append(&mut more);
                assert(constraints_model(out@) =~= constraints_model(before) + constraints_model(m));
            },
            Err(e) => {
                proof {
                    lemma_pairwise_error_prefix(xs, ys, i + 1, e);
                }
                return Err(e);
            },
        }
        i += 1;
    }
    assert(xs.take(a.len() as int) =~= xs);
    assert(ys.take(a.len() as int) =~= ys);
    Ok(out)
}

impl Term {
    /// The constraints under which the two terms are equal, each binding a variable of
    /// one side to the term at the same place on the other side; or why they never are.
    pub fn collect_constraints(&self, other: &Term) -> (r: Result<Vec<BindingConstraint>, UnificationError>)
        ensures
            match term_constraints(self@, other@) {
                Ok(cs) => r matches Ok(v) && constraints_model(v@) == cs,
                Err(e) => r == Err::<Vec<BindingConstraint>, UnificationError>(e),
            },
        decreases self,
    {
        match (self, other) {
            (Term::Variable(v), t) => {
                let c = BindingConstraint::new(v.id, t.clone());
                let out = vec![c];
                assert(constraints_model(out@) =~= seq![(v.id.0, t@)]);
                Ok(out)
            },
            (t, Term::Variable(v)) => {
                let c = BindingConstraint::new(v.id, t.clone());
                let out = vec![c];
                assert(constraints_model(out@) =~= seq![(v.id.0, t@)]);
                Ok(out)
            },
            (Term::Number(x), Term::Number(y)) => if *x == *y {
                let out: Vec<BindingConstraint> = Vec::new();
                assert(constraints_model(out@) =~= Seq::empty());
                Ok(out)
            } else {
                Err(UnificationError::NumberMismatch)
            },
            (Term::String(x), Term::String(y)) => if bstring_eq(x, y) {
                let out: Vec<BindingConstraint> = Vec::new();
                assert(constraints_model(out@) =~= Seq::empty());
                Ok(out)
            } else {
                Err(UnificationError::StringMismatch)
            },
            (Term::Literal(l1), Term::Literal(l2)) => {
                if l1.negated != l2.negated {
                    Err(UnificationError::NegationMismatch)
                } else {
                    proof {
                        assert(decreases_to!(*self => (*self)->Literal_0));
                        assert(decreases_to!(l1 => l1.structure));
                    }
                    l1.structure.collect_constraints(&l2.structure)
                }
            },
            (Term::List(x), Term::List(y)) => {
                if x.len() != y.len() {
                    Err(UnificationError::ArityMismatch)
                } else {
                    proof {
                        assert(decreases_to!(*self => (*self)->List_0));
                    }
                    collect_pairwise(x, y)
                }
            },
            _ => Err(UnificationError::TypeMismatch),
        }
    }
}

impl Structure {
    /// The constraints under which the two structures are equal, or why they never are.
    pub fn collect_constraints(&self, other: &Structure) -> (r: Result<Vec<BindingConstraint>, UnificationError>)
        ensures
            match structure_constraints(self@, other@) {
                Ok(cs) => r matches Ok(v) && constraints_model(v@) == cs,
                Err(e) => r == Err::<Vec<BindingConstraint>, UnificationError>(e),
            },
        decreases self,
    {
        if self.functor.0 != other.functor.0 {
            return Err(UnificationError::FunctorMismatch);
        }
        match (&self.arguments, &other.arguments) {
            (Some(x), Some(y)) => {
                if x.len() == y.len() {
                    proof {
                        assert(decreases_to!(*self => self.arguments));
                        assert(decreases_to!(self.arguments => (self.arguments)->Some_0));
                    }
                    collect_pairwise(x, y)
                } else {
                    Err(UnificationError::ArityMismatch)
                }
            },
            (None, None) => {
                let out: Vec<BindingConstraint> = Vec::new();
                assert(constraints_model(out@) =~= Seq::empty());
                Ok(out)
            },
            _ => Err(UnificationError::ArityMismatch),
        }
    }
}

impl Variable {
    /// The constraint that the variable stands for the term.
    pub fn collect_constraints(&self, other: &Term) -> (r: Vec<BindingConstraint>)
        ensures
            constraints_model(r@) == seq![(self.id.0, other@)],
    {
        let out = vec![BindingConstraint::new(self.id, other.clone())];
        assert(constraints_model(out@) =~= seq![(self.id.0, other@)]);
        out
    }
}


/// A structure with every variable `v` in its arguments replaced by `f(v)`.
pub open spec fn apply_structure(f: spec_fn(u32) -> TermModel, s: StructureModel) -> StructureModel {
    StructureModel {
        functor: s.functor,
        arguments: match s.arguments {
            Some(a) => Some(apply_all(f, a)),
            None => None,
        },
    }
}

/// Some substitution makes the two terms equal and meets the constraints.
pub open spec fn unifiable(a: TermModel, b: TermModel, ex: Seq<(u32, TermModel)>) -> bool {
    exists|f: spec_fn(u32) -> TermModel| #[trigger] satisfies(f, ex) && apply(f, a) == apply(f, b)
}

/// Some substitution makes the two terms equal and meets the constraints, and under it
/// the term the two become, together with the terms the constraints give, has fewer than
/// 2^64 nodes.
pub open spec fn unifiable_in_bounds(a: TermModel, b: TermModel, ex: Seq<(u32, TermModel)>) -> bool {
    exists|f: spec_fn(u32) -> TermModel| #[trigger] satisfies(f, ex) && apply(f, a) == apply(f, b) && term_size(apply(f, a)) + weight(f, ex) < u64::MAX
}

/// The same of two structures: the arguments they become count.
pub open spec fn structures_unifiable_in_bounds(s1: StructureModel, s2: StructureModel, ex: Seq<(u32, TermModel)>) -> bool {
    exists|f: spec_fn(u32) -> TermModel| #[trigger] satisfies(f, ex) && apply_structure(f, s1) == apply_structure(f, s2)
        && terms_size(argument_terms(apply_structure(f, s1).arguments)) + weight(f, ex) < u64::MAX
}

/// Which of two terms comes first does not decide whether they can be made equal.
pub proof fn lemma_unifiable_symmetric(a: TermModel, b: TermModel, ex: Seq<(u32, TermModel)>)
    ensures
        unifiable(a, b, ex) == unifiable(b, a, ex),
{
    if unifiable(a, b, ex) {
        let f = choose|f: spec_fn(u32) -> TermModel| #[trigger] satisfies(f, ex) && apply(f, a) == apply(f, b);
        assert(satisfies(f, ex) && apply(f, b) == apply(f, a));
    }
    if unifiable(b, a, ex) {
        let f = choose|f: spec_fn(u32) -> TermModel| #[trigger] satisfies(f, ex) && apply(f, b) == apply(f, a);
        assert(satisfies(f, ex) && apply(f, a) == apply(f, b));
    }
}

/// Some substitution makes the two structures equal and meets the constraints.
pub open spec fn structures_unifiable(s1: StructureModel, s2: StructureModel, ex: Seq<(u32, TermModel)>) -> bool {
    exists|f: spec_fn(u32) -> TermModel| #[trigger] satisfies(f, ex) && apply_structure(f, s1) == apply_structure(f, s2)
}

/// The structure's arguments hold no variable.
pub open spec fn ground_structure(s: StructureModel) -> bool {
    match s.arguments {
        Some(a) => all_ground(a),
        None => true,
    }
}

impl Term {
    /// Bindings, consistent with the existing ones, under which the two terms are equal
    /// (well kept, so met by their own solution); or why the terms never are, or why no
    /// such bindings exist: any error but the solver's step limit means none exist, and the
    /// result is bindings whenever some substitution makes the terms equal, meets the
    /// existing bindings and keeps the terms of fewer than 2^64 nodes. When
    /// one of the terms holds no variable and the existing bindings bind no variable to a
    /// term with variables, the result is bindings exactly when some substitution makes
    /// the terms equal and meets the existing bindings. The bindings found are most
    /// general: every substitution that makes the terms equal and meets the existing
    /// bindings meets them. With no existing bindings, when the terms only ask to give a variable, each met once, a term that is no variable, the
    /// result is bindings or a cycle.
    pub fn unify(&self, other: &Term, existing: Option<&Bindings>) -> (r: Result<Bindings, UnificationError>)
        ensures
            match term_constraints(self@, other@) {
                Err(e) => r == Err::<Bindings, UnificationError>(e),
                Ok(cs) => match r {
                    Ok(b) => apply(b.solution(), self@) == apply(b.solution(), other@) && satisfies(b.solution(), optional_constraints(existing)) && b.idempotent() && well_kept(b),
                    Err(e) => e != UnificationError::StepLimitReached ==> forall|f: spec_fn(u32) -> TermModel| #![trigger apply(f, self@)] !(apply(f, self@) == apply(f, other@) && satisfies(f, optional_constraints(existing))),
                },
            },
            (term_constraints(self@, other@) matches Ok(cs) && distinct_ground(cs)) && starts_empty(existing) ==> r is Ok,
            (term_constraints(self@, other@) matches Ok(cs) && distinct_nonvar(cs)) && starts_empty(existing) ==> (r is Ok || r == Err::<Bindings, UnificationError>(UnificationError::CyclicReference)),
            (ground(self@) || ground(other@)) && optional_ground(existing) ==> (r is Ok <==> unifiable(self@, other@, optional_constraints(existing))),
            r matches Ok(b) ==> forall|f: spec_fn(u32) -> TermModel| #![trigger apply(f, self@)]
                apply(f, self@) == apply(f, other@) && satisfies(f, optional_constraints(existing)) ==> satisfies(f, b.constraints()),
            (ground(self@) || ground(other@)) && optional_ground(existing) && r is Ok ==> ground_entries(r->Ok_0),
            unifiable_in_bounds(self@, other@, optional_constraints(existing)) ==> r is Ok,
            r is Ok ==> unifiable(self@, other@, optional_constraints(existing)),
    {
        let cs = match self.collect_constraints(other) {
            Ok(cs) => cs,
            Err(e) => {
                proof {
                    assert forall|f: spec_fn(u32) -> TermModel| !(#[trigger] satisfies(f, optional_constraints(existing)) && apply(f, self@) == apply(f, other@)) by {
                        lemma_constraints_clash(f, self@, other@);
                    }
                }
                return Err(e);
            },
        };
        let ghost cm = constraints_model(cs@);
        proof {
            if ground(self@) || ground(other@) {
                lemma_ground_side_constraints(self@, other@);
            }
            let ex = optional_constraints(existing);
            if unifiable_in_bounds(self@, other@, ex) {
                let f = choose|f: spec_fn(u32) -> TermModel| #[trigger] satisfies(f, ex) && apply(f, self@) == apply(f, other@)
                    && term_size(apply(f, self@)) + weight(f, ex) < u64::MAX;
                lemma_constraints_weight(f, self@, other@);
                lemma_weight_concat(f, cm, ex);
                lemma_satisfies_concat(f, cm, ex);
                lemma_constraints_exact(f, self@, other@);
                assert(satisfies(f, cm + ex) && weight(f, cm + ex) < u64::MAX);
            }
        }
        let r = Bindings::build_from_constraints(cs, existing);
        proof {
            let ex = optional_constraints(existing);
            assert forall|f: spec_fn(u32) -> TermModel| #[trigger] satisfies(f, cm + ex) <==> (apply(f, self@) == apply(f, other@) && satisfies(f, ex)) by {
                lemma_satisfies_concat(f, cm, ex);
                lemma_constraints_exact(f, self@, other@);
            }
            if (ground(self@) || ground(other@)) && optional_ground(existing) {
                if unifiable(self@, other@, ex) {
                    let f = choose|f: spec_fn(u32) -> TermModel| #[trigger] satisfies(f, ex) && apply(f, self@) == apply(f, other@);
                    assert(satisfies(f, cm + ex));
                }
                if r is Ok {
                    let th = r->Ok_0.solution();
                    assert(satisfies(th, cm + ex));
                    assert(satisfies(th, ex));
                }
            }
            if r is Ok {
                let th = r->Ok_0.solution();
                assert(satisfies(th, cm + ex));
                assert forall|f: spec_fn(u32) -> TermModel| #![trigger apply(f, self@)]
                    apply(f, self@) == apply(f, other@) && satisfies(f, ex) implies satisfies(f, r->Ok_0.constraints()) by {
                    assert(satisfies(f, cm + ex));
                }
            } else if r->Err_0 != UnificationError::StepLimitReached {
                assert forall|f: spec_fn(u32) -> TermModel| #![trigger apply(f, self@)] !(apply(f, self@) == apply(f, other@) && satisfies(f, ex)) by {
                    if apply(f, self@) == apply(f, other@) && satisfies(f, ex) {
                        assert(satisfies(f, cm + ex));
                    }
                }
            }
        }
        r
    }
}

impl Structure {
    /// Bindings, consistent with the existing ones, under which the two structures are
    /// equal (well kept); or why the structures never are, or why no such bindings exist:
    /// any error but the solver's step limit means none exist, and the result is bindings
    /// whenever some substitution makes the structures equal, meets the existing bindings
    /// and keeps the terms of fewer than 2^64 nodes. When the arguments of one
    /// of them hold no variable and the existing bindings bind no variable to a term with
    /// variables, the result is bindings exactly when some substitution makes the
    /// structures equal and meets the existing bindings. The bindings found are most
    /// general: every substitution that makes the structures equal and meets the existing
    /// bindings meets them. With no existing bindings, when the structures only ask to give a variable, each met once, a term that is no
    /// variable, the result is bindings or a cycle.
    pub fn unify(&self, other: &Structure, existing: Option<&Bindings>) -> (r: Result<Bindings, UnificationError>)
        ensures
            match structure_constraints(self@, other@) {
                Err(e) => r == Err::<Bindings, UnificationError>(e),
                Ok(cs) => match r {
                    Ok(b) => apply_structure(b.solution(), self@) == apply_structure(b.solution(), other@) && satisfies(b.solution(), optional_constraints(existing)) && b.idempotent() && well_kept(b),
                    Err(e) => e != UnificationError::StepLimitReached ==> forall|f: spec_fn(u32) -> TermModel| #![trigger apply_structure(f, self@)] !(apply_structure(f, self@) == apply_structure(f, other@) && satisfies(f, optional_constraints(existing))),
                },
            },
            structure_constraints(self@, other@) == Ok::<Seq<(u32, TermModel)>, UnificationError>(Seq::empty()) && starts_empty(existing)
                ==> (r matches Ok(b) && b.entries().len() == 0 && b.alias_pairs().len() == 0),
            (structure_constraints(self@, other@) matches Ok(cs) && distinct_ground(cs)) && starts_empty(existing) ==> r is Ok,
            (structure_constraints(self@, other@) matches Ok(cs) && distinct_nonvar(cs)) && starts_empty(existing) ==> (r is Ok || r == Err::<Bindings, UnificationError>(UnificationError::CyclicReference)),
            (ground_structure(self@) || ground_structure(other@)) && optional_ground(existing)
                ==> (r is Ok <==> structures_unifiable(self@, other@, optional_constraints(existing))),
            r matches Ok(b) ==> forall|f: spec_fn(u32) -> TermModel| #![trigger apply_structure(f, self@)]
                apply_structure(f, self@) == apply_structure(f, other@) && satisfies(f, optional_constraints(existing)) ==> satisfies(f, b.constraints()),
            (ground_structure(self@) || ground_structure(other@)) && optional_ground(existing) && r is Ok ==> ground_entries(r->Ok_0),
            structures_unifiable_in_bounds(self@, other@, optional_constraints(existing)) ==> r is Ok,
            r is Ok ==> structures_unifiable(self@, other@, optional_constraints(existing)),
    {
        let cs = match self.collect_constraints(other) {
            Ok(cs) => cs,
            Err(e) => {
                proof {
                    assert forall|f: spec_fn(u32) -> TermModel| !(#[trigger] satisfies(f, optional_constraints(existing)) && apply_structure(f, self@) == apply_structure(f, other@)) by {
                        lemma_structure_constraints_clash(f, self@, other@);
                    }
                }
                return Err(e);
            },
        };
        let ghost cm = constraints_model(cs@);
        assert(cm.len() == cs@.len());
        proof {
            if ground_structure(self@) || ground_structure(other@) {
                lemma_ground_side_structure(self@, other@);
            }
            let ex = optional_constraints(existing);
            if structures_unifiable_in_bounds(self@, other@, ex) {
                let f = choose|f: spec_fn(u32) -> TermModel| #[trigger] satisfies(f, ex) && apply_structure(f, self@) == apply_structure(f, other@)
                    && terms_size(argument_terms(apply_structure(f, self@).arguments)) + weight(f, ex) < u64::MAX;
                lemma_structure_weight(f, self@, other@);
                lemma_weight_concat(f, cm, ex);
                lemma_satisfies_concat(f, cm, ex);
                lemma_structure_constraints_exact(f, self@, other@);
                assert(satisfies(f, cm + ex) && weight(f, cm + ex) < u64::MAX);
            }
        }
        let r = Bindings::build_from_constraints(cs, existing);
        proof {
            let ex = optional_constraints(existing);
            assert forall|f: spec_fn(u32) -> TermModel| #[trigger] satisfies(f, cm + ex) <==> (apply_structure(f, self@) == apply_structure(f, other@) && satisfies(f, ex)) by {
                lemma_satisfies_concat(f, cm, ex);
                lemma_structure_constraints_exact(f, self@, other@);
            }
            if (ground_structure(self@) || ground_structure(other@)) && optional_ground(existing) {
                if structures_unifiable(self@, other@, ex) {
                    let f = choose|f: spec_fn(u32) -> TermModel| #[trigger] satisfies(f, ex) && apply_structure(f, self@) == apply_structure(f, other@);
                    assert(satisfies(f, cm + ex));
                }
                if r is Ok {
                    let th = r->Ok_0.solution();
                    assert(satisfies(th, cm + ex));
                    assert(satisfies(th, ex));
                }
            }
            if r is Ok {
                let th = r->Ok_0.solution();
                assert(satisfies(th, cm + ex));
                assert forall|f: spec_fn(u32) -> TermModel| #![trigger apply_structure(f, self@)]
                    apply_structure(f, self@) == apply_structure(f, other@) && satisfies(f, ex) implies satisfies(f, r->Ok_0.constraints()) by {
                    assert(satisfies(f, cm + ex));
                }
            } else if r->Err_0 != UnificationError::StepLimitReached {
                assert forall|f: spec_fn(u32) -> TermModel| #![trigger apply_structure(f, self@)] !(apply_structure(f, self@) == apply_structure(f, other@) && satisfies(f, ex)) by {
                    if apply_structure(f, self@) == apply_structure(f, other@) && satisfies(f, ex) {
                        assert(satisfies(f, cm + ex));
                    }
                }
            }
        }
        r
    }
}

impl Variable {
    /// Bindings, consistent with the existing ones, under which the variable stands for
    /// the term (well kept); or why no such bindings exist: any error but the solver's step
    /// limit means none exist, and the result is bindings whenever some substitution gives
    /// the variable the term, meets the existing bindings and keeps the terms of fewer than
    /// 2^64 nodes. When the term holds no variable and the existing bindings
    /// bind no variable to a term with variables, the result is bindings exactly when some
    /// substitution gives the variable the term and meets the existing bindings. The
    /// bindings found are most general: every substitution that gives the variable the term
    /// and meets the existing bindings meets them. With no existing bindings and a term that is no variable, the result is bindings or a cycle.
    pub fn unify(&self, other: &Term, existing: Option<&Bindings>) -> (r: Result<Bindings, UnificationError>)
        ensures
            match r {
                Ok(b) => b.solution()(self.id.0) == apply(b.solution(), other@) && satisfies(b.solution(), optional_constraints(existing)) && b.idempotent() && well_kept(b),
                Err(e) => e != UnificationError::StepLimitReached ==> forall|f: spec_fn(u32) -> TermModel| #![trigger f(self.id.0)] !(f(self.id.0) == apply(f, other@) && satisfies(f, optional_constraints(existing))),
            },
            ground(other@) && starts_empty(existing) ==> r is Ok,
            !(other@ is Variable) && starts_empty(existing) ==> (r is Ok || r == Err::<Bindings, UnificationError>(UnificationError::CyclicReference)),
            ground(other@) && optional_ground(existing) ==> (r is Ok <==> unifiable(TermModel::Variable(self.id.0), other@, optional_constraints(existing))),
            unifiable_in_bounds(TermModel::Variable(self.id.0), other@, optional_constraints(existing)) ==> r is Ok,
            r is Ok ==> unifiable(TermModel::Variable(self.id.0), other@, optional_constraints(existing)),
            r matches Ok(b) ==> forall|f: spec_fn(u32) -> TermModel| #![trigger f(self.id.0)]
                f(self.id.0) == apply(f, other@) && satisfies(f, optional_constraints(existing)) ==> satisfies(f, b.constraints()),
    {
        let cs = self.collect_constraints(other);
        let ghost cm = constraints_model(cs@);
        assert(ground(other@) ==> distinct_ground(cm));
        assert(!(other@ is Variable) ==> distinct_nonvar(cm));
        let r = Bindings::build_from_constraints(cs, existing);
        proof {
            let ex = optional_constraints(existing);
            assert forall|f: spec_fn(u32) -> TermModel| #[trigger] satisfies(f, cm + ex) <==> (f(self.id.0) == apply(f, other@) && satisfies(f, ex)) by {
                lemma_satisfies_concat(f, cm, ex);
                assert(cm[0] == (self.id.0, other@));
                if f(self.id.0) == apply(f, other@) {
                    assert forall|i: int| 0 <= i < cm.len() implies #[trigger] f(cm[i].0) == apply(f, cm[i].1) by {
                        assert(cm[i] == cm[0]);
                    }
                }
                if satisfies(f, cm) {
                    assert(f(cm[0].0) == apply(f, cm[0].1));
                }
            }
            if unifiable_in_bounds(TermModel::Variable(self.id.0), other@, ex) {
                let f = choose|f: spec_fn(u32) -> TermModel| #[trigger] satisfies(f, ex) && apply(f, TermModel::Variable(self.id.0)) == apply(f, other@)
                    && term_size(apply(f, TermModel::Variable(self.id.0))) + weight(f, ex) < u64::MAX;
                assert(cm =~= seq![(self.id.0, other@)]);
                lemma_weight_single(f, (self.id.0, other@));
                lemma_weight_concat(f, cm, ex);
                assert(satisfies(f, cm + ex) && weight(f, cm + ex) < u64::MAX);
            }
            if r is Ok {
                let th = r->Ok_0.solution();
                assert(satisfies(th, cm + ex));
                assert(satisfies(th, ex) && apply(th, TermModel::Variable(self.id.0)) == apply(th, other@));
            }
            if ground(other@) && optional_ground(existing) {
                assert(ground_values(cm)) by {
                    assert forall|i: int| 0 <= i < cm.len() implies ground(#[trigger] cm[i].1) by {
                        assert(cm[i] == cm[0]);
                    }
                }
                if unifiable(TermModel::Variable(self.id.0), other@, ex) {
                    let f = choose|f: spec_fn(u32) -> TermModel| #[trigger] satisfies(f, ex) && apply(f, TermModel::Variable(self.id.0)) == apply(f, other@);
                    assert(satisfies(f, cm + ex));
                }
                if r is Ok {
                    let th = r->Ok_0.solution();
                    assert(satisfies(th, cm + ex));
                    assert(satisfies(th, ex));
                }
            }
            if r is Ok {
                let th = r->Ok_0.solution();
                assert(satisfies(th, cm + ex));
                assert forall|f: spec_fn(u32) -> TermModel| #![trigger f(self.id.0)]
                    f(self.id.0) == apply(f, other@) && satisfies(f, ex) implies satisfies(f, r->Ok_0.constraints()) by {
                    assert(satisfies(f, cm + ex));
                }
            } else if r->Err_0 != UnificationError::StepLimitReached {
                assert forall|f: spec_fn(u32) -> TermModel| #![trigger f(self.id.0)] !(f(self.id.0) == apply(f, other@) && satisfies(f, ex)) by {
                    if f(self.id.0) == apply(f, other@) && satisfies(f, ex) {
                        assert(satisfies(f, cm + ex));
                    }
                }
            }
        }
        r
    }
}

} // verus!
