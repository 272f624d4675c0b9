//! What variables stand for.

use vstd::prelude::*;

use std::collections::BTreeSet;

use crate::term::{ground, term_variables, terms_variables, Term, TermModel};
use crate::unification::constraint::{constraints_model, BindingConstraint};
use crate::unification::error::UnificationError;
use crate::unification::substitution::{apply, apply_all, satisfies};
use crate::unification::traits::ground_values;

use self::solver::{weight, ConstraintSolver};
use crate::variable::{Variable, VariableId};

pub(crate) mod solver;

verus! {

broadcast use vstd::std_specs::vec::group_vec_axioms;

/// Pairs of variables known to stand for the same thing.
#[derive(Debug)]
pub struct AliasMap(pub(crate) Vec<(VariableId, VariableId)>);

/// What variables stand for: a variable may be bound to a term, known without a term
/// (bound to `None`), or not mentioned at all; and which variables are aliases.
#[derive(Debug)]
pub struct Bindings {
    pub(crate) bindings: Option<Vec<(VariableId, Option<Term>)>>,
    pub(crate) aliases: AliasMap,
}

pub open spec fn entry_model(e: (VariableId, Option<Term>)) -> (u32, Option<TermModel>) {
    (
        e.0.0,
        match e.1 {
            Some(t) => Some(t@),
            None => None,
        },
    )
}

/// What the last entry for `k` says, if there is one.
pub open spec fn last_entry_for(es: Seq<(u32, Option<TermModel>)>, k: u32) -> Option<Option<TermModel>>
    decreases es.len(),
{
    if es.len() == 0 {
        None
    } else if es.last().0 == k {
        Some(es.last().1)
    } else {
        last_entry_for(es.drop_last(), k)
    }
}

/// The variable that names `v` among its aliases: the first of the last pair that
/// names `v` second, or `v` itself.
pub open spec fn alias_rep(pairs: Seq<(u32, u32)>, v: u32) -> u32
    decreases pairs.len(),
{
    if pairs.len() == 0 {
        v
    } else if pairs.last().1 == v {
        pairs.last().0
    } else {
        alias_rep(pairs.drop_last(), v)
    }
}

/// The constraints of the entries that bind a term, in order.
pub open spec fn bound_constraints(es: Seq<(u32, Option<TermModel>)>) -> Seq<(u32, TermModel)>
    decreases es.len(),
{
    if es.len() == 0 {
        Seq::empty()
    } else {
        match es.last().1 {
            Some(t) => bound_constraints(es.drop_last()).push((es.last().0, t)),
            None => bound_constraints(es.drop_last()),
        }
    }
}

/// The constraint that the first of each pair stands for the second.
pub open spec fn alias_constraints(pairs: Seq<(u32, u32)>) -> Seq<(u32, TermModel)> {
    pairs.map_values(|p: (u32, u32)| (p.0, TermModel::Variable(p.1)))
}

/// A substitution that meets the constraints of some entries meets those of a prefix.
pub proof fn lemma_bound_constraints_prefix(f: spec_fn(u32) -> TermModel, es: Seq<(u32, Option<TermModel>)>, i: int)
    requires
        0 <= i <= es.len(),
        satisfies(f, bound_constraints(es)),
    ensures
        satisfies(f, bound_constraints(es.take(i))),
    decreases es.len(),
{
    if i == es.len() {
        assert(es.take(i) =~= es);
    } else {
        let d = es.drop_last();
        let bd = bound_constraints(d);
        let be = bound_constraints(es);
        assert forall|j: int| 0 <= j < bd.len() implies #[trigger] f(bd[j].0) == apply(f, bd[j].1) by {
            assert(be[j] == bd[j]);
            assert(f(be[j].0) == apply(f, be[j].1));
        }
        lemma_bound_constraints_prefix(f, d, i);
        assert(d.take(i) =~= es.take(i));
    }
}

impl AliasMap {
    pub closed spec fn pairs(&self) -> Seq<(u32, u32)> {
        self.0@.map_values(|p: (VariableId, VariableId)| (p.0.0, p.1.0))
    }

    /// No aliases.
    pub fn empty() -> (r: Self)
        ensures
            r.pairs() == Seq::<(u32, u32)>::empty(),
    {
        let r = AliasMap(Vec::new());
        assert(r.pairs() =~= Seq::<(u32, u32)>::empty());
        r
    }

    /// The given pairs of aliases.
    pub fn new(aliases: Vec<(VariableId, VariableId)>) -> (r: Self)
        ensures
            r.pairs() == aliases@.map_values(|p: (VariableId, VariableId)| (p.0.0, p.1.0)),
    {
        AliasMap(aliases)
    }

    /// The pairs of aliases, in order.
    pub fn iter(&self) -> (r: &Vec<(VariableId, VariableId)>)
        ensures
            r@.map_values(|p: (VariableId, VariableId)| (p.0.0, p.1.0)) == self.pairs(),
    {
        &self.0
    }
}

impl Bindings {
    /// The entries, in order; a later entry for a variable overrides an earlier one.
    pub closed spec fn entries(&self) -> Seq<(u32, Option<TermModel>)> {
        match self.bindings {
            Some(v) => v@.map_values(|e: (VariableId, Option<Term>)| entry_model(e)),
            None => Seq::empty(),
        }
    }

    /// What `v` is bound to: `None` when not mentioned, `Some(None)` when known
    /// without a term.
    pub open spec fn binding(&self, v: u32) -> Option<Option<TermModel>> {
        last_entry_for(self.entries(), v)
    }

    /// The term `v` is bound to, if any.
    pub open spec fn bound_term(&self, v: u32) -> Option<TermModel> {
        match self.binding(v) {
            Some(Some(t)) => Some(t),
            _ => None,
        }
    }

    pub closed spec fn alias_pairs(&self) -> Seq<(u32, u32)> {
        self.aliases.pairs()
    }

    /// The constraints these bindings stand for: each bound term, then each alias.
    pub open spec fn constraints(&self) -> Seq<(u32, TermModel)> {
        bound_constraints(self.entries()) + alias_constraints(self.alias_pairs())
    }

    /// No term the bindings give holds a variable they bind to a term: looking a
    /// variable up once gives all there is to know of it.
    pub open spec fn idempotent(&self) -> bool {
        forall|v: u32, x: u32|
            #![trigger self.bound_term(v), self.bound_term(x)]
            self.bound_term(v) is Some && term_variables(self.bound_term(v)->Some_0).contains(x) ==> self.bound_term(x) is None
    }

    /// The variable that names `v` among its aliases.
    pub open spec fn representative(&self, v: u32) -> u32 {
        alias_rep(self.alias_pairs(), v)
    }

    /// Every variable renamed to the variable that names it among its aliases.
    pub open spec fn renaming(&self) -> spec_fn(u32) -> TermModel {
        |x: u32| TermModel::Variable(self.representative(x))
    }

    /// What each variable stands for under these bindings: the term it is bound to, with
    /// aliased variables renamed alike, or else the variable that names it.
    pub open spec fn solution(&self) -> spec_fn(u32) -> TermModel {
        |v: u32|
            match self.bound_term(v) {
                Some(t) => apply(self.renaming(), t),
                None => TermModel::Variable(self.representative(v)),
            }
    }

    /// No bindings and no aliases.
    pub fn empty() -> (r: Self)
        ensures
            r.entries() == Seq::<(u32, Option<TermModel>)>::empty(),
            r.alias_pairs() == Seq::<(u32, u32)>::empty(),
    {
        Bindings { bindings: None, aliases: AliasMap::empty() }
    }

    /// The given entries and aliases.
    pub fn new(bindings: Vec<(VariableId, Option<Term>)>, aliases: AliasMap) -> (r: Self)
        ensures
            r.entries() == bindings@.map_values(|e: (VariableId, Option<Term>)| entry_model(e)),
            r.alias_pairs() == aliases.pairs(),
    {
        Bindings { bindings: Some(bindings), aliases }
    }

    /// The term the variable is bound to, if it is bound to one.
    pub fn get(&self, variable: &Variable) -> (r: Option<&Term>)
        ensures
            match self.bound_term(variable.id.0) {
                Some(t) => r matches Some(x) && x@ == t,
                None => r is None,
            },
    {
        match &self.bindings {
            None => None,
            Some(v) => {
                let ghost es = self.entries();
                let mut i = v.len();
                assert(es.take(i as int) =~= es);
                while i > 0
                    invariant
                        i <= v.len(),
                        es == v@.map_values(|e: (VariableId, Option<Term>)| entry_model(e)),
                        self.binding(variable.id.0) == last_entry_for(es.take(i as int), variable.id.0),
                    decreases i,
                {
                    assert(es.take(i as int).last() == es[i - 1]);
                    assert(es.take(i as int).drop_last() =~= es.take(i - 1));
                    if v[i - 1].0.0 == variable.id.0 {
                        return match &v[i - 1].1 {
                            Some(t) => Some(t),
                            None => None,
                        };
                    }
                    i -= 1;
                }
                None
            },
        }
    }

    /// The term the variable is bound to, if it is bound to one.
    pub fn get_view(&self, variable: &Variable) -> (r: Option<&Term>)
        ensures
            match self.bound_term(variable.id.0) {
                Some(t) => r matches Some(x) && x@ == t,
                None => r is None,
            },
    {
        self.get(variable)
    }

    /// How many entries the bindings hold.
    pub fn entry_count_exec(&self) -> (r: usize)
        ensures
            r == self.entries().len(),
    {
        match &self.bindings {
            Some(v) => v.len(),
            None => 0,
        }
    }

    /// The aliases.
    pub fn aliases(&self) -> (r: &AliasMap)
        ensures
            r.pairs() == self.alias_pairs(),
    {
        &self.aliases
    }
}


/// Hands the constraints of `existing` to the solver.
fn load_bindings(solver: &mut ConstraintSolver, existing: &Bindings) -> (r: Result<(), UnificationError>)
    requires
        old(solver).inv(),
    ensures
        r is Ok ==> final(solver).inv() && final(solver).given() == old(solver).given() + existing.constraints(),
        r matches Err(e) ==> e != UnificationError::CyclicReference && e != UnificationError::StepLimitReached
            && forall|f: spec_fn(u32) -> TermModel| !#[trigger] satisfies(f, old(solver).given() + existing.constraints()),
        existing.entries().len() == 0 && existing.alias_pairs().len() == 0 ==> r is Ok && *final(solver) == *old(solver),
        old(solver).ground_pending() && ground_entries(*existing) && r is Ok ==> final(solver).ground_pending(),
        r is Ok ==> forall|f: spec_fn(u32) -> TermModel| #[trigger] satisfies(f, old(solver).given() + existing.constraints())
            ==> weight(f, final(solver).pending()) <= weight(f, old(solver).pending()) + weight(f, existing.constraints()),
{
    let ghost g0 = solver.given();
    let ghost p0 = solver.pending();
    let ghost es = existing.entries();
    let ghost ps = existing.alias_pairs();
    let no_entries = match &existing.bindings {
        Some(v) => v.len() == 0,
        None => true,
    };
    let no_aliases = existing.aliases.iter().len() == 0;
    assert(no_entries == (es.len() == 0));
    assert(no_aliases == (ps.len() == 0));
    if no_entries && no_aliases {
        proof {
            assert(existing.constraints() =~= Seq::<(u32, TermModel)>::empty());
            assert(g0 + existing.constraints() =~= g0);
        }
        return Ok(());
    }
    proof {
        assert forall|f: spec_fn(u32) -> TermModel| #[trigger] satisfies(f, g0 + existing.constraints()) <==> (satisfies(f, g0) && satisfies(f, bound_constraints(es)) && satisfies(f, alias_constraints(ps))) by {
            crate::unification::substitution::lemma_satisfies_concat(f, g0, bound_constraints(es) + alias_constraints(ps));
            crate::unification::substitution::lemma_satisfies_concat(f, bound_constraints(es), alias_constraints(ps));
            assert(g0 + existing.constraints() =~= g0 + (bound_constraints(es) + alias_constraints(ps)));
        }
    }
    match &existing.bindings {
        Some(v) => {
            let mut i: usize = 0;
            assert(es.take(0) =~= Seq::<(u32, Option<TermModel>)>::empty());
            assert(g0 + bound_constraints(es.take(0)) =~= g0);
            while i < v.len()
                invariant
                    i <= v.len(),
                    es == v@.map_values(|e: (VariableId, Option<Term>)| entry_model(e)),
                    es == existing.entries(),
                    ps == existing.alias_pairs(),
                    !(es.len() == 0 && ps.len() == 0),
                    solver.inv(),
                    g0 == old(solver).given(),
                    solver.given() == g0 + bound_constraints(es.take(i as int)),
                    forall|f: spec_fn(u32) -> TermModel| #[trigger] satisfies(f, g0 + existing.constraints()) ==> satisfies(f, g0) && satisfies(f, bound_constraints(es)) && satisfies(f, alias_constraints(ps)),
                    old(solver).ground_pending() && ground_entries(*existing) ==> solver.ground_pending(),
                    p0 == old(solver).pending(),
                    forall|f: spec_fn(u32) -> TermModel| #[trigger] satisfies(f, g0 + existing.constraints())
                        ==> weight(f, solver.pending()) <= weight(f, p0) + weight(f, bound_constraints(es.take(i as int))),
                decreases v.len() - i,
            {
                let ghost gi = solver.given();
                proof {
                    assert(es.take(i + 1).drop_last() =~= es.take(i as int));
                    assert(es.take(i + 1).last() == es[i as int]);
                    assert(es[i as int] == entry_model(v@[i as int]));
                }
                match &v[i].1 {
                    Some(t) => {
                        let c = BindingConstraint::new(v[i].0, t.clone());
                        proof {
                            if ground_entries(*existing) {
                                assert(es[i as int].1 == Some(t@));
                            }
                        }
                        let ghost pi = solver.pending();
                        let res = solver.register_constraint(c);
                        match res {
                            Ok(()) => {
                                assert(solver.given() =~= g0 + bound_constraints(es.take(i + 1)));
                                proof {
                                    assert forall|f: spec_fn(u32) -> TermModel| #[trigger] satisfies(f, g0 + existing.constraints())
                                        implies weight(f, solver.pending()) <= weight(f, p0) + weight(f, bound_constraints(es.take(i + 1))) by {
                                        lemma_bound_constraints_prefix(f, es, i + 1);
                                        crate::unification::substitution::lemma_satisfies_concat(f, g0, bound_constraints(es.take(i + 1)));
                                        assert(gi.push(c@) =~= g0 + bound_constraints(es.take(i + 1)));
                                        assert(satisfies(f, gi.push(c@)));
                                        let bt = bound_constraints(es.take(i as int));
                                        assert(bound_constraints(es.take(i + 1)) == bt.push(c@));
                                        assert(bt.push(c@).drop_last() =~= bt);
                                        assert(weight(f, bt.push(c@)) == weight(f, bt) + crate::bindings::solver::term_size(apply(f, c@.1)));
                                    }
                                }
                            },
                            Err(e) => {
                                proof {
                                    assert(gi.push(c@) =~= g0 + bound_constraints(es.take(i + 1)));
                                    assert forall|f: spec_fn(u32) -> TermModel| !#[trigger] satisfies(f, g0 + existing.constraints()) by {
                                        if satisfies(f, g0 + existing.constraints()) {
                                            lemma_bound_constraints_prefix(f, es, i + 1);
                                            crate::unification::substitution::lemma_satisfies_concat(f, g0, bound_constraints(es.take(i + 1)));
                                            assert(satisfies(f, gi.push(c@)));
                                        }
                                    }
                                }
                                return Err(e);
                            },
                        }
                    },
                    None => {
                        proof {
                            assert(bound_constraints(es.take(i + 1)) == bound_constraints(es.take(i as int)));
                        }
                    },
                }
                i += 1;
            }
            assert(es.take(v.len() as int) =~= es);
        },
        None => {
            assert(es =~= Seq::<(u32, Option<TermModel>)>::empty());
            assert(bound_constraints(es) =~= Seq::<(u32, TermModel)>::empty());
            assert(g0 + bound_constraints(es) =~= g0);
        },
    }
    let ghost g1 = solver.given();
    let pairs = existing.aliases.iter();
    let mut k: usize = 0;
    assert(g1 + alias_constraints(ps).take(0) =~= g1);
    while k < pairs.len()
        invariant
            k <= pairs.len(),
            pairs@.map_values(|p: (VariableId, VariableId)| (p.0.0, p.1.0)) == ps,
            solver.inv(),
            g0 == old(solver).given(),
            g1 == g0 + bound_constraints(es),
            solver.given() == g1 + alias_constraints(ps).take(k as int),
            forall|f: spec_fn(u32) -> TermModel| #[trigger] satisfies(f, g0 + existing.constraints()) ==> satisfies(f, g0) && satisfies(f, bound_constraints(es)) && satisfies(f, alias_constraints(ps)),
            es == existing.entries(),
            ps == existing.alias_pairs(),
            !(es.len() == 0 && ps.len() == 0),
            old(solver).ground_pending() && ground_entries(*existing) ==> solver.ground_pending(),
            p0 == old(solver).pending(),
            forall|f: spec_fn(u32) -> TermModel| #[trigger] satisfies(f, g0 + existing.constraints())
                ==> weight(f, solver.pending()) <= weight(f, p0) + weight(f, bound_constraints(es)) + weight(f, alias_constraints(ps).take(k as int)),
        decreases pairs.len() - k,
    {
        let ghost gk = solver.given();
        let (a, b) = pairs[k];
        proof {
            assert(ps[k as int] == (a.0, b.0));
            assert(alias_constraints(ps)[k as int] == (a.0, TermModel::Variable(b.0)));
            assert(alias_constraints(ps).take(k + 1) =~= alias_constraints(ps).take(k as int).push((a.0, TermModel::Variable(b.0))));
        }
        let res = solver.register_alias(a, b);
        match res {
            Ok(()) => {
                assert(solver.given() =~= g1 + alias_constraints(ps).take(k + 1));
                proof {
                    assert forall|f: spec_fn(u32) -> TermModel| #[trigger] satisfies(f, g0 + existing.constraints())
                        implies weight(f, solver.pending()) <= weight(f, p0) + weight(f, bound_constraints(es)) + weight(f, alias_constraints(ps).take(k + 1)) by {
                        let ac = alias_constraints(ps);
                        let act = ac.take(k + 1);
                        assert forall|j: int| 0 <= j < act.len() implies #[trigger] f(act[j].0) == apply(f, act[j].1) by {
                            assert(act[j] == ac[j]);
                            assert(f(ac[j].0) == apply(f, ac[j].1));
                        }
                        crate::unification::substitution::lemma_satisfies_concat(f, g0, bound_constraints(es));
                        crate::unification::substitution::lemma_satisfies_concat(f, g1, act);
                        assert(gk.push((a.0, TermModel::Variable(b.0))) =~= g1 + act);
                        assert(satisfies(f, gk.push((a.0, TermModel::Variable(b.0)))));
                        let at = ac.take(k as int);
                        assert(act.drop_last() =~= at);
                        assert(act.last() == (a.0, TermModel::Variable(b.0)));
                        assert(apply(f, TermModel::Variable(b.0)) == f(b.0));
                    }
                }
            },
            Err(e) => {
                proof {
                    assert(gk.push((a.0, TermModel::Variable(b.0))) =~= g1 + alias_constraints(ps).take(k + 1));
                    assert forall|f: spec_fn(u32) -> TermModel| !#[trigger] satisfies(f, g0 + existing.constraints()) by {
                        if satisfies(f, g0 + existing.constraints()) {
                            let ac = alias_constraints(ps);
                            let act = ac.take(k + 1);
                            assert forall|j: int| 0 <= j < act.len() implies #[trigger] f(act[j].0) == apply(f, act[j].1) by {
                                assert(act[j] == ac[j]);
                                assert(f(ac[j].0) == apply(f, ac[j].1));
                            }
                            crate::unification::substitution::lemma_satisfies_concat(f, g0, bound_constraints(es));
                            crate::unification::substitution::lemma_satisfies_concat(f, g1, act);
                            assert(satisfies(f, gk.push((a.0, TermModel::Variable(b.0)))));
                        }
                    }
                }
                return Err(e);
            },
        }
        k += 1;
    }
    proof {
        assert(alias_constraints(ps).take(pairs.len() as int) =~= alias_constraints(ps));
        assert(solver.given() =~= g0 + existing.constraints());
        assert forall|f: spec_fn(u32) -> TermModel| #[trigger] satisfies(f, g0 + existing.constraints())
            implies weight(f, solver.pending()) <= weight(f, p0) + weight(f, existing.constraints()) by {
            crate::bindings::solver::lemma_weight_concat(f, bound_constraints(es), alias_constraints(ps));
        }
    }
    Ok(())
}

/// No variable is bound to a term that holds a variable.
pub open spec fn ground_entries(b: Bindings) -> bool {
    forall|i: int| 0 <= i < b.entries().len() ==> ((#[trigger] b.entries()[i]).1 matches Some(t) ==> ground(t))
}

/// The bindings are none, or bind no variable to a term that holds a variable.
pub open spec fn optional_ground(existing: Option<&Bindings>) -> bool {
    existing matches Some(e) ==> ground_entries(*e)
}

/// The constraints of an optional set of bindings: none when there is none.
pub open spec fn optional_constraints(existing: Option<&Bindings>) -> Seq<(u32, TermModel)> {
    match existing {
        Some(b) => b.constraints(),
        None => Seq::empty(),
    }
}

/// No two constraints are on one variable.
pub open spec fn distinct_vars(cs: Seq<(u32, TermModel)>) -> bool {
    forall|i: int, j: int| 0 <= i < j < cs.len() ==> #[trigger] cs[i].0 != #[trigger] cs[j].0
}

/// Each constraint gives a term that is no variable, each to a variable of its own.
pub open spec fn distinct_nonvar(cs: Seq<(u32, TermModel)>) -> bool {
    &&& forall|i: int| 0 <= i < cs.len() ==> !(#[trigger] cs[i].1 is Variable)
    &&& distinct_vars(cs)
}

/// Each constraint gives a term without variables, each to a variable of its own.
pub open spec fn distinct_ground(cs: Seq<(u32, TermModel)>) -> bool {
    &&& forall|i: int| 0 <= i < cs.len() ==> ground(#[trigger] cs[i].1)
    &&& forall|i: int, j: int| 0 <= i < j < cs.len() ==> #[trigger] cs[i].0 != #[trigger] cs[j].0
}

/// There are no existing bindings, or they hold no entry and no alias.
pub open spec fn starts_empty(existing: Option<&Bindings>) -> bool {
    match existing {
        Some(b) => b.entries().len() == 0 && b.alias_pairs().len() == 0,
        None => true,
    }
}

impl Bindings {
    /// Solves the constraints together with those of the existing bindings: well-kept
    /// bindings under which all of them hold, or why they cannot all hold; any error but
    /// the solver's step limit means they cannot. When no term that the constraints give,
    /// nor any that the existing bindings bind a variable to, holds a variable, the result
    /// is bindings exactly when some substitution meets them all. The bindings found are
    /// most general: every substitution that meets all the constraints meets them. With no
    /// existing bindings, constraints
    /// that give a variable, each met once, a term that is no variable end in bindings or a
    /// cycle, and in bindings when those terms hold no variable.
    pub fn build_from_constraints(constraints: Vec<BindingConstraint>, existing: Option<&Bindings>) -> (r: Result<Bindings, UnificationError>)
        ensures
            match r {
                Ok(b) => satisfies(b.solution(), constraints_model(constraints@) + optional_constraints(existing)) && b.idempotent() && well_kept(b),
                Err(e) => e != UnificationError::StepLimitReached ==> forall|f: spec_fn(u32) -> TermModel| !#[trigger] satisfies(f, constraints_model(constraints@) + optional_constraints(existing)),
            },
            constraints@.len() == 0 && starts_empty(existing) ==> (r matches Ok(b) && b.entries().len() == 0 && b.alias_pairs().len() == 0),
            distinct_ground(constraints_model(constraints@)) && starts_empty(existing) ==> r is Ok,
            distinct_nonvar(constraints_model(constraints@)) && starts_empty(existing)
                ==> (r is Ok || r == Err::<Bindings, UnificationError>(UnificationError::CyclicReference)),
            ground_values(constraints_model(constraints@)) && optional_ground(existing)
                ==> (r is Ok <==> exists|f: spec_fn(u32) -> TermModel| #[trigger] satisfies(f, constraints_model(constraints@) + optional_constraints(existing))),
            r matches Ok(b) ==> forall|f: spec_fn(u32) -> TermModel|
                #[trigger] satisfies(f, constraints_model(constraints@) + optional_constraints(existing)) ==> satisfies(f, b.constraints()),
            ground_values(constraints_model(constraints@)) && optional_ground(existing) && r is Ok ==> ground_entries(r->Ok_0),
            (exists|f: spec_fn(u32) -> TermModel| #[trigger] satisfies(f, constraints_model(constraints@) + optional_constraints(existing))
                && weight(f, constraints_model(constraints@) + optional_constraints(existing)) < u64::MAX) ==> r is Ok,
    {
        let ghost cs = constraints_model(constraints@);
        let mut solver = ConstraintSolver::new(constraints);
        match existing {
            Some(b) => {
                load_bindings(&mut solver, b)?;
            },
            None => {
                assert(cs + optional_constraints(existing) =~= cs);
                assert(optional_constraints(existing) =~= Seq::<(u32, TermModel)>::empty());
            },
        }
        proof {
            let ex = optional_constraints(existing);
            if exists|f: spec_fn(u32) -> TermModel| #[trigger] satisfies(f, cs + ex) && weight(f, cs + ex) < u64::MAX {
                let f = choose|f: spec_fn(u32) -> TermModel| #[trigger] satisfies(f, cs + ex) && weight(f, cs + ex) < u64::MAX;
                self::solver::lemma_weight_concat(f, cs, ex);
                assert(weight(f, Seq::<(u32, TermModel)>::empty()) == 0);
                assert(satisfies(f, solver.given()));
                assert(weight(f, solver.pending()) < u64::MAX);
            }
        }
        let r = solver.solve();
        proof {
            if r is Ok {
                assert(satisfies(r->Ok_0.solution(), cs + optional_constraints(existing)));
            }
        }
        r
    }
}


/// The constraints of each of the bindings, one after the other.
pub open spec fn all_constraints(bs: Seq<Bindings>) -> Seq<(u32, TermModel)>
    decreases bs.len(),
{
    if bs.len() == 0 {
        Seq::empty()
    } else {
        all_constraints(bs.drop_last()) + bs.last().constraints()
    }
}

impl Bindings {
    /// Well-kept bindings under which the constraints of all the given bindings hold, or
    /// why they cannot all hold; any error but the solver's step limit means they cannot.
    pub fn merge_views(bindings: &Vec<Bindings>) -> (r: Result<Bindings, UnificationError>)
        ensures
            match r {
                Ok(b) => satisfies(b.solution(), all_constraints(bindings@)) && b.idempotent() && well_kept(b),
                Err(e) => e != UnificationError::StepLimitReached ==> forall|f: spec_fn(u32) -> TermModel| !#[trigger] satisfies(f, all_constraints(bindings@)),
            },
            (forall|k: int| 0 <= k < bindings@.len() ==> ground_entries(#[trigger] bindings@[k]))
                ==> (r is Ok <==> exists|f: spec_fn(u32) -> TermModel| #[trigger] satisfies(f, all_constraints(bindings@))),
            (exists|f: spec_fn(u32) -> TermModel| #[trigger] satisfies(f, all_constraints(bindings@)) && weight(f, all_constraints(bindings@)) < u64::MAX)
                ==> r is Ok,
    {
        let ghost all_ground = forall|k: int| 0 <= k < bindings@.len() ==> ground_entries(#[trigger] bindings@[k]);
        let none: Vec<BindingConstraint> = Vec::new();
        assert(constraints_model(none@) =~= Seq::<(u32, TermModel)>::empty());
        let mut solver = ConstraintSolver::new(none);
        let mut i: usize = 0;
        assert(bindings@.take(0) =~= Seq::<Bindings>::empty());
        while i < bindings.len()
            invariant
                i <= bindings@.len(),
                solver.inv(),
                solver.given() == all_constraints(bindings@.take(i as int)),
                all_ground == forall|k: int| 0 <= k < bindings@.len() ==> ground_entries(#[trigger] bindings@[k]),
                all_ground ==> solver.ground_pending(),
                forall|f: spec_fn(u32) -> TermModel| #[trigger] satisfies(f, all_constraints(bindings@))
                    ==> weight(f, solver.pending()) <= weight(f, all_constraints(bindings@.take(i as int))),
            decreases bindings@.len() - i,
        {
            proof {
                assert(bindings@.take(i + 1).drop_last() =~= bindings@.take(i as int));
                assert(bindings@.take(i + 1).last() == bindings@[i as int]);
            }
            let ghost p_before = solver.pending();
            match load_bindings(&mut solver, &bindings[i]) {
                Ok(()) => {
                    proof {
                        lemma_all_constraints_prefix(bindings@, i + 1);
                        assert forall|f: spec_fn(u32) -> TermModel| #[trigger] satisfies(f, all_constraints(bindings@))
                            implies weight(f, solver.pending()) <= weight(f, all_constraints(bindings@.take(i + 1))) by {
                            assert(satisfies(f, all_constraints(bindings@.take(i + 1))));
                            assert(all_constraints(bindings@.take(i + 1)) == all_constraints(bindings@.take(i as int)) + bindings@[i as int].constraints());
                            self::solver::lemma_weight_concat(f, all_constraints(bindings@.take(i as int)), bindings@[i as int].constraints());
                        }
                    }
                },
                Err(e) => {
                    proof {
                        lemma_all_constraints_prefix(bindings@, i + 1);
                    }
                    return Err(e);
                },
            }
            i += 1;
        }
        assert(bindings@.take(bindings@.len() as int) =~= bindings@);
        proof {
            if exists|f: spec_fn(u32) -> TermModel| #[trigger] satisfies(f, all_constraints(bindings@)) && weight(f, all_constraints(bindings@)) < u64::MAX {
                let f = choose|f: spec_fn(u32) -> TermModel| #[trigger] satisfies(f, all_constraints(bindings@)) && weight(f, all_constraints(bindings@)) < u64::MAX;
                assert(satisfies(f, solver.given()));
                assert(weight(f, solver.pending()) < u64::MAX);
            }
        }
        let r = solver.solve();
        proof {
            if r is Ok {
                assert(satisfies(r->Ok_0.solution(), all_constraints(bindings@)));
            }
        }
        r
    }

    /// Keeps only what is said of the given variables: their entries, and the aliases
    /// between two of them.
    pub fn retain_variables(&mut self, variables: &BTreeSet<u32>)
        ensures
            final(self).entries() == old(self).entries().filter(|e: (u32, Option<TermModel>)| variables@.contains(e.0)),
            final(self).alias_pairs() == old(self).alias_pairs().filter(|p: (u32, u32)| variables@.contains(p.0) && variables@.contains(p.1)),
    {
        let ghost keep = |e: (u32, Option<TermModel>)| variables@.contains(e.0);
        let ghost keep_pair = |p: (u32, u32)| variables@.contains(p.0) && variables@.contains(p.1);
        let ghost es = self.entries();
        let ghost ps = self.alias_pairs();
        match &self.bindings {
            Some(v) => {
                let mut out: Vec<(VariableId, Option<Term>)> = Vec::new();
                let mut i: usize = 0;
                proof {
                    reveal(Seq::filter);
                    assert(es.take(0) =~= Seq::<(u32, Option<TermModel>)>::empty());
                    assert(out@.map_values(|e: (VariableId, Option<Term>)| entry_model(e)) =~= es.take(0).filter(keep));
                }
                while i < v.len()
                    invariant
                        i <= v@.len(),
                        es == v@.map_values(|e: (VariableId, Option<Term>)| entry_model(e)),
                        keep == (|e: (u32, Option<TermModel>)| variables@.contains(e.0)),
                        out@.map_values(|e: (VariableId, Option<Term>)| entry_model(e)) == es.take(i as int).filter(keep),
                    decreases v@.len() - i,
                {
                    let ghost before = out@;
                    proof {
                        reveal(Seq::filter);
                        assert(es.take(i + 1).drop_last() =~= es.take(i as int));
                        assert(es.take(i + 1).last() == es[i as int]);
                        assert(es[i as int] == entry_model(v@[i as int]));
                    }
                    if variables.contains(&v[i].0.0) {
                        let t = match &v[i].1 {
                            Some(t) => Some(t.clone()),
                            None => None,
                        };
                        out.push((v[i].0, t));
                        assert(out@.map_values(|e: (VariableId, Option<Term>)| entry_model(e)) =~= before.map_values(|e: (VariableId, Option<Term>)| entry_model(e)).push(es[i as int]));
                    }
                    i += 1;
                }
                assert(es.take(v@.len() as int) =~= es);
                self.bindings = Some(out);
            },
            None => {
                proof {
                    reveal(Seq::filter);
                    assert(es =~= Seq::<(u32, Option<TermModel>)>::empty());
                }
            },
        }
        let pairs = &self.aliases.0;
        let mut kept: Vec<(VariableId, VariableId)> = Vec::new();
        let mut k: usize = 0;
        proof {
            reveal(Seq::filter);
            assert(ps.take(0) =~= Seq::<(u32, u32)>::empty());
            assert(kept@.map_values(|p: (VariableId, VariableId)| (p.0.0, p.1.0)) =~= ps.take(0).filter(keep_pair));
        }
        while k < pairs.len()
            invariant
                k <= pairs@.len(),
                ps == pairs@.map_values(|p: (VariableId, VariableId)| (p.0.0, p.1.0)),
                keep_pair == (|p: (u32, u32)| variables@.contains(p.0) && variables@.contains(p.1)),
                kept@.map_values(|p: (VariableId, VariableId)| (p.0.0, p.1.0)) == ps.take(k as int).filter(keep_pair),
            decreases pairs@.len() - k,
        {
            let ghost before = kept@;
            proof {
                reveal(Seq::filter);
                assert(ps.take(k + 1).drop_last() =~= ps.take(k as int));
                assert(ps.take(k + 1).last() == ps[k as int]);
            }
            let (a, b) = pairs[k];
            if variables.contains(&a.0) && variables.contains(&b.0) {
                kept.push((a, b));
                assert(kept@.map_values(|p: (VariableId, VariableId)| (p.0.0, p.1.0)) =~= before.map_values(|p: (VariableId, VariableId)| (p.0.0, p.1.0)).push(ps[k as int]));
            }
            k += 1;
        }
        assert(ps.take(pairs@.len() as int) =~= ps);
        self.aliases = AliasMap(kept);
    }

    /// What is said of the given variables alone: their entries, without any alias.
    pub fn restricted_to(&self, variables: &BTreeSet<u32>) -> (r: Bindings)
        ensures
            r.entries() == self.entries().filter(|e: (u32, Option<TermModel>)| variables@.contains(e.0)),
            r.alias_pairs() == Seq::<(u32, u32)>::empty(),
    {
        let mut kept = self.clone();
        kept.retain_variables(variables);
        let r = Bindings { bindings: kept.bindings, aliases: AliasMap::empty() };
        assert(r.entries() == kept.entries());
        r
    }
}

/// A variable of one of the terms is a variable of the list of them.
pub proof fn lemma_item_variables(ts: Seq<TermModel>, i: int, x: u32)
    requires
        0 <= i < ts.len(),
        term_variables(ts[i]).contains(x),
    ensures
        terms_variables(ts).contains(x),
    decreases ts.len(),
{
    if i > 0 {
        assert(ts.drop_first()[i - 1] == ts[i]);
        lemma_item_variables(ts.drop_first(), i - 1, x);
    }
}

/// Two substitutions that agree on the variables of a term agree on the term.
pub proof fn lemma_apply_agree(f: spec_fn(u32) -> TermModel, g: spec_fn(u32) -> TermModel, t: TermModel)
    requires
        forall|x: u32| #[trigger] term_variables(t).contains(x) ==> f(x) == g(x),
    ensures
        apply(f, t) == apply(g, t),
    decreases t,
{
    match t {
        TermModel::Variable(v) => {
            assert(term_variables(t).contains(v));
        },
        TermModel::List(items) => {
            assert forall|i: int| 0 <= i < items.len() implies apply(f, #[trigger] items[i]) == apply(g, items[i]) by {
                assert forall|x: u32| #[trigger] term_variables(items[i]).contains(x) implies f(x) == g(x) by {
                    lemma_item_variables(items, i, x);
                    assert(term_variables(t).contains(x));
                }
                lemma_apply_agree(f, g, items[i]);
            }
            assert(apply_all(f, items) =~= apply_all(g, items));
        },
        TermModel::Literal(l) => match l.structure.arguments {
            Some(a) => {
                assert forall|i: int| 0 <= i < a.len() implies apply(f, #[trigger] a[i]) == apply(g, a[i]) by {
                    assert forall|x: u32| #[trigger] term_variables(a[i]).contains(x) implies f(x) == g(x) by {
                        lemma_item_variables(a, i, x);
                        assert(term_variables(t).contains(x));
                    }
                    lemma_apply_agree(f, g, a[i]);
                }
                assert(apply_all(f, a) =~= apply_all(g, a));
            },
            None => {},
        },
        _ => {},
    }
}

/// A substitution that meets the term of each entry meets their constraints.
pub proof fn lemma_bound_constraints_hold(f: spec_fn(u32) -> TermModel, es: Seq<(u32, Option<TermModel>)>)
    requires
        forall|i: int| 0 <= i < es.len() && (#[trigger] es[i]).1 is Some ==> f(es[i].0) == apply(f, es[i].1->Some_0),
    ensures
        satisfies(f, bound_constraints(es)),
    decreases es.len(),
{
    if es.len() > 0 {
        let d = es.drop_last();
        assert forall|i: int| 0 <= i < d.len() && (#[trigger] d[i]).1 is Some implies f(d[i].0) == apply(f, d[i].1->Some_0) by {
            assert(d[i] == es[i]);
        }
        lemma_bound_constraints_hold(f, d);
        if let Some(t) = es.last().1 {
            let c = bound_constraints(d).push((es.last().0, t));
            assert(es.last() == es[es.len() - 1]);
            assert forall|i: int| 0 <= i < c.len() implies #[trigger] f(c[i].0) == apply(f, c[i].1) by {
                if i < bound_constraints(d).len() {
                    assert(c[i] == bound_constraints(d)[i]);
                }
            }
        }
    }
}

/// Bindings whose entries name each variable once, in increasing order, whose terms hold
/// no bound variable, and whose aliased variables are bound alike and named alike.
pub open spec fn well_kept(b: Bindings) -> bool {
    &&& forall|i: int, j: int| 0 <= i < j < b.entries().len() ==> b.entries()[i].0 < b.entries()[j].0
    &&& b.idempotent()
    &&& forall|i: int| 0 <= i < b.alias_pairs().len() ==> {
        &&& b.bound_term((#[trigger] b.alias_pairs()[i]).0) == b.bound_term(b.alias_pairs()[i].1)
        &&& b.representative(b.alias_pairs()[i].0) == b.representative(b.alias_pairs()[i].1)
    }
}

/// Whether bindings are well kept depends on their entries and aliases alone.
pub proof fn lemma_well_kept_alike(a: Bindings, b: Bindings)
    requires
        a.entries() == b.entries(),
        a.alias_pairs() == b.alias_pairs(),
        well_kept(a),
    ensures
        well_kept(b),
{
    assert forall|v: u32| #[trigger] b.bound_term(v) == a.bound_term(v) by {}
    assert forall|v: u32| #[trigger] b.representative(v) == a.representative(v) by {}
}

/// The solution of well-kept bindings meets their own constraints: they are satisfiable.
pub proof fn lemma_well_kept_satisfied(b: Bindings)
    requires
        well_kept(b),
    ensures
        satisfies(b.solution(), b.constraints()),
{
    let es = b.entries();
    let th = b.solution();
    crate::bindings::solver::lemma_last_entry_increasing(es, 0);
    assert forall|i: int| 0 <= i < es.len() && (#[trigger] es[i]).1 is Some implies th(es[i].0) == apply(th, es[i].1->Some_0) by {
        crate::bindings::solver::lemma_last_entry_increasing(es, es[i].0);
        let v = es[i].0;
        let t = es[i].1->Some_0;
        assert(b.bound_term(v) == Some(t));
        assert forall|x: u32| #[trigger] term_variables(t).contains(x) implies th(x) == b.renaming()(x) by {
            assert(b.bound_term(x) is None);
        }
        lemma_apply_agree(th, b.renaming(), t);
    }
    lemma_bound_constraints_hold(th, es);
    let ac = alias_constraints(b.alias_pairs());
    assert forall|i: int| 0 <= i < ac.len() implies #[trigger] th(ac[i].0) == apply(th, ac[i].1) by {
        assert(ac[i] == (b.alias_pairs()[i].0, TermModel::Variable(b.alias_pairs()[i].1)));
    }
    crate::unification::substitution::lemma_satisfies_concat(th, bound_constraints(es), ac);
}

/// A substitution that meets the constraints of all the bindings meets those of the first
/// of them.
pub proof fn lemma_all_constraints_prefix(bs: Seq<Bindings>, i: int)
    requires
        0 <= i <= bs.len(),
    ensures
        forall|f: spec_fn(u32) -> TermModel| #[trigger] satisfies(f, all_constraints(bs)) ==> satisfies(f, all_constraints(bs.take(i))),
    decreases bs.len(),
{
    if i == bs.len() {
        assert(bs.take(i) =~= bs);
    } else {
        lemma_all_constraints_prefix(bs.drop_last(), i);
        assert(bs.drop_last().take(i) =~= bs.take(i));
        assert forall|f: spec_fn(u32) -> TermModel| #[trigger] satisfies(f, all_constraints(bs)) implies satisfies(f, all_constraints(bs.drop_last())) by {
            crate::unification::substitution::lemma_satisfies_concat(f, all_constraints(bs.drop_last()), bs.last().constraints());
        }
    }
}


impl Clone for AliasMap {
    fn clone(&self) -> (r: Self)
        ensures
            r.pairs() == self.pairs(),
    {
        let mut out: Vec<(VariableId, VariableId)> = Vec::new();
        let mut i: usize = 0;
        while i < self.0.len()
            invariant
                i <= self.0@.len(),
                out@ == self.0@.take(i as int),
            decreases self.0@.len() - i,
        {
            out.push(self.0[i]);
            assert(out@ =~= self.0@.take(i + 1));
            i += 1;
        }
        assert(out@ =~= self.0@);
        AliasMap(out)
    }
}

impl Clone for Bindings {
    fn clone(&self) -> (r: Self)
        ensures
            r.entries() == self.entries(),
            r.alias_pairs() == self.alias_pairs(),
    {
        let bindings = match &self.bindings {
            Some(v) => {
                let mut out: Vec<(VariableId, Option<Term>)> = Vec::new();
                let mut i: usize = 0;
                while i < v.len()
                    invariant
                        i <= v@.len(),
                        out@.map_values(|e: (VariableId, Option<Term>)| entry_model(e)) == v@.take(i as int).map_values(|e: (VariableId, Option<Term>)| entry_model(e)),
                    decreases v@.len() - i,
                {
                    let t = match &v[i].1 {
                        Some(t) => Some(t.clone()),
                        None => None,
                    };
                    let e = (v[i].0, t);
                    assert(entry_model(e) == entry_model(v@[i as int]));
                    let ghost before = out@;
                    out.push(e);
                    assert(out@.map_values(|e: (VariableId, Option<Term>)| entry_model(e)) =~= before.map_values(|e: (VariableId, Option<Term>)| entry_model(e)).push(entry_model(e)));
                    assert(v@.take(i + 1).map_values(|e: (VariableId, Option<Term>)| entry_model(e)) =~= v@.take(i as int).map_values(|e: (VariableId, Option<Term>)| entry_model(e)).push(entry_model(v@[i as int])));
                    i += 1;
                }
                assert(v@.take(v@.len() as int) =~= v@);
                Some(out)
            },
            None => None,
        };
        Bindings { bindings, aliases: self.aliases.clone() }
    }
}

} // verus!
