//! The plans of an agent, and the choice of the plan that handles an event.

use vstd::prelude::*;

use crate::bindings::{distinct_ground, well_kept, Bindings};
use crate::event::{GoalKind, Trigger, TriggeringEvent};
use crate::knowledge::answers::{asks_held_fact, covered, facts_meet, finds, ground_fact_for, plan_sound, Evaluate};
use crate::knowledge::lowering::{lowered, LeafModel, OperandModel};
use crate::knowledge::query::{FormulaModel, QueryFormula};
use crate::knowledge::{KnowledgeBase, KnowledgeModel};
use crate::term::{atom_and_arity_of, LiteralModel, TermModel};
use crate::unification::substitution::satisfies;
use crate::unification::error::UnificationError;
use crate::unification::traits::{apply_structure, ground_structure, structure_constraints, structures_unifiable};

use super::{Formula, PlanSelector};

verus! {

broadcast use vstd::std_specs::vec::group_vec_axioms;

/// A plan: the event it handles, the context under which it applies, and the body it runs.
#[derive(Debug)]
pub struct Plan<A> {
    pub trigger: TriggeringEvent,
    pub context: Option<QueryFormula>,
    pub body: Vec<Formula<A>>,
}

/// The class of events a plan is filed under: whether it is an addition or a deletion, the
/// functor and arity of the event's literal, and the kind of goal.
pub open spec fn plan_key(e: (Trigger, LiteralModel, Option<GoalKind>)) -> (Trigger, (Seq<char>, nat), Option<GoalKind>) {
    (e.0, atom_and_arity_of(e.1.structure), e.2)
}

/// Two events are of one class exactly when they are both additions or both deletions,
/// ask for the same kind of goal (or neither asks for one), and have literals of the same
/// functor and number of arguments.
pub proof fn lemma_plan_key_fields(a: TriggeringEvent, b: TriggeringEvent)
    ensures
        (plan_key(a@) == plan_key(b@)) == (a.trigger == b.trigger && a.goal == b.goal
            && a.event.structure@.functor == b.event.structure@.functor
            && atom_and_arity_of(a.event.structure@).1 == atom_and_arity_of(b.event.structure@).1),
{
}

/// The `i`-th plan handles the event under the bindings `b`: it is of the event's class,
/// and every substitution that meets `b` makes its event equal to the event and makes what
/// answering its context says hold.
pub open spec fn applies<A>(plans: Seq<Plan<A>>, i: int, b: Bindings, event: TriggeringEvent, kb: Set<crate::knowledge::KnowledgeModel>) -> bool {
    let p = plans[i];
    &&& 0 <= i < plans.len()
    &&& plan_key(p.trigger@) == plan_key(event@)
    &&& event.event.negated == p.trigger.event.negated
    &&& forall|f: spec_fn(u32) -> TermModel| #[trigger] satisfies(f, b.constraints()) ==> {
        &&& apply_structure(f, event.event.structure@) == apply_structure(f, p.trigger.event.structure@)
        &&& (p.context matches Some(c) ==> plan_sound(f, lowered(c@), kb))
    }
}

/// The `i`-th plan surely handles the event: it is of the event's class, and its event
/// unifies with the event by giving each of its variables, each met once, a term without
/// variables of the event; and it has no context, or its event equals the event outright
/// and its context asks (in one of its conjunctions, alone) for a literal that a held fact
/// matches outright or, not negated, by giving its variables terms of the fact.
pub open spec fn surely_applies<A>(plans: Seq<Plan<A>>, i: int, event: TriggeringEvent, kb: Set<KnowledgeModel>) -> bool {
    let p = plans[i];
    &&& 0 <= i < plans.len()
    &&& plan_key(p.trigger@) == plan_key(event@)
    &&& event.event.negated == p.trigger.event.negated
    &&& structure_constraints(event.event.structure@, p.trigger.event.structure@) matches Ok(cs) && distinct_ground(cs)
    &&& match p.context {
        None => true,
        Some(c) => {
            &&& structure_constraints(event.event.structure@, p.trigger.event.structure@) == Ok::<Seq<(u32, TermModel)>, UnificationError>(Seq::empty())
            &&& (exists|j: int| {
                &&& 0 <= j < lowered(c@).conjunctions.len()
                &&& lowered(c@).conjunctions[j].len() == 1
                &&& #[trigger] asks_held_fact(lowered(c@).conjunctions[j][0], kb)
            }) || context_matches_fact(c, kb)
        },
    }
}

/// The `i`-th plan applies through facts: it is of the event's class, the event's
/// arguments hold no variable, and some substitution makes the plan's event the event and,
/// where the plan has a context, makes each literal of one of the context's conjunctions a
/// held fact whose arguments hold no variable.
pub open spec fn applies_by_facts<A>(plans: Seq<Plan<A>>, i: int, event: TriggeringEvent, kb: Set<KnowledgeModel>) -> bool {
    let p = plans[i];
    &&& 0 <= i < plans.len()
    &&& plan_key(p.trigger@) == plan_key(event@)
    &&& event.event.negated == p.trigger.event.negated
    &&& ground_structure(event.event.structure@)
    &&& exists|f: spec_fn(u32) -> TermModel| {
        &&& #[trigger] apply_structure(f, event.event.structure@) == apply_structure(f, p.trigger.event.structure@)
        &&& (p.context matches Some(c) ==> exists|j: int| 0 <= j < lowered(c@).conjunctions.len()
            && #[trigger] facts_meet(f, lowered(c@).conjunctions[j], kb))
    }
}

/// One of the conjunctions of the context's plan is a single literal, not negated, that a
/// held fact without variables matches by giving each variable of the literal, each met
/// once, a term of the fact.
pub open spec fn context_matches_fact(c: QueryFormula, kb: Set<KnowledgeModel>) -> bool {
    exists|j: int, m: LiteralModel, g: LiteralModel| #![trigger lowered(c@).conjunctions[j], ground_fact_for(g, m)] {
        &&& 0 <= j < lowered(c@).conjunctions.len()
        &&& lowered(c@).conjunctions[j] == seq![LeafModel { negated: false, operand: OperandModel::Literal(m) }]
        &&& kb.contains((g, None::<FormulaModel>))
        &&& ground_fact_for(g, m)
    }
}

/// Whether the two events are of the same class.
fn same_key(a: &TriggeringEvent, b: &TriggeringEvent) -> (r: bool)
    ensures
        r == (plan_key(a@) == plan_key(b@)),
        r == (a.trigger == b.trigger && a.goal == b.goal && atom_and_arity_of(a.event.structure@) == atom_and_arity_of(b.event.structure@)),
{
    let (fa, na) = a.event.atom_and_arity();
    let (fb, nb) = b.event.atom_and_arity();
    let same_goal = match (a.goal, b.goal) {
        (None, None) => true,
        (Some(GoalKind::Achieve), Some(GoalKind::Achieve)) => true,
        (Some(GoalKind::Query), Some(GoalKind::Query)) => true,
        _ => false,
    };
    let same_trigger = match (a.trigger, b.trigger) {
        (Trigger::Addition, Trigger::Addition) => true,
        (Trigger::Deletion, Trigger::Deletion) => true,
        _ => false,
    };
    same_trigger && same_goal && fa.0 == fb.0 && na == nb
}

/// The plans of an agent, in the order they were added.
#[derive(Debug)]
pub struct PlanLibrary<A> {
    plans: Vec<Plan<A>>,
}

impl<A> PlanLibrary<A> {
    /// The plans, in the order they were added.
    pub closed spec fn plans(&self) -> Seq<Plan<A>> {
        self.plans@
    }

    /// No plan.
    pub fn new() -> (r: Self)
        ensures
            r.plans() == Seq::<Plan<A>>::empty(),
    {
        PlanLibrary { plans: Vec::new() }
    }

    /// Adds the plan after the others.
    pub fn add(&mut self, plan: Plan<A>)
        ensures
            final(self).plans() == old(self).plans().push(plan),
    {
        self.plans.push(plan);
    }

    /// The `i`-th plan.
    pub fn plan(&self, i: usize) -> (r: &Plan<A>)
        requires
            i < self.plans().len(),
        ensures
            *r == self.plans()[i as int],
    {
        &self.plans[i]
    }

    /// How many plans there are.
    pub fn len(&self) -> (r: usize)
        ensures
            r == self.plans().len(),
    {
        self.plans.len()
    }

    /// The plan that handles the event, with the bindings it runs under: the first plan the
    /// selector accepts among those of the event's class whose event unifies with it and
    /// whose context, if it has one, has an answer under the bindings of that unification
    /// (then the first answer). The bindings entail that the two events are equal and what
    /// answering the context says. With a selector that accepts every plan, a plan is chosen
    /// whenever one applies surely or through facts, and none after the first such plan.
    pub fn select<E: Evaluate, S: PlanSelector<A>>(&self, event: &TriggeringEvent, selector: &mut S, knowledge: &KnowledgeBase, depth: u64, eval: &E) -> (r: Option<(usize, Bindings)>)
        ensures
            r matches Some((i, b)) ==> applies(self.plans(), i as int, b, *event, knowledge.contents()),
            r matches Some((i, b)) ==> well_kept(b) && satisfies(b.solution(), b.constraints()),
            r matches Some((i, b)) ==> {
                &&& self.plans()[i as int].trigger.trigger == event.trigger
                &&& self.plans()[i as int].trigger.goal == event.goal
                &&& self.plans()[i as int].trigger.event.negated == event.event.negated
                &&& atom_and_arity_of(self.plans()[i as int].trigger.event.structure@) == atom_and_arity_of(event.event.structure@)
            },
            S::accepts_every_plan() ==> forall|j: int| #[trigger] surely_applies(self.plans(), j, *event, knowledge.contents())
                ==> (r matches Some((i, _)) && i <= j),
            S::accepts_every_plan() ==> forall|j: int| #[trigger] applies_by_facts(self.plans(), j, *event, knowledge.contents())
                ==> (r matches Some((i, _)) && i <= j),
    {
        let mut i: usize = 0;
        while i < self.plans.len()
            invariant
                i <= self.plans@.len(),
                S::accepts_every_plan() ==> forall|j: int| 0 <= j < i ==> !#[trigger] surely_applies(self.plans(), j, *event, knowledge.contents()),
                S::accepts_every_plan() ==> forall|j: int| 0 <= j < i ==> !#[trigger] applies_by_facts(self.plans(), j, *event, knowledge.contents()),
            decreases self.plans@.len() - i,
        {
            let p = &self.plans[i];
            let ghost sure = surely_applies(self.plans(), i as int, *event, knowledge.contents());
            let ghost by_facts = applies_by_facts(self.plans(), i as int, *event, knowledge.contents());
            proof {
                if by_facts {
                    let f = choose|f: spec_fn(u32) -> TermModel| {
                        &&& #[trigger] apply_structure(f, event.event.structure@) == apply_structure(f, p.trigger.event.structure@)
                        &&& (p.context matches Some(c) ==> exists|j: int| 0 <= j < lowered(c@).conjunctions.len()
                            && #[trigger] facts_meet(f, lowered(c@).conjunctions[j], knowledge.contents()))
                    };
                    assert(satisfies(f, crate::bindings::optional_constraints(None)));
                    assert(structures_unifiable(event.event.structure@, p.trigger.event.structure@, crate::bindings::optional_constraints(None)));
                }
            }
            if same_key(&p.trigger, event) && event.event.negated == p.trigger.event.negated {
                if let Ok(b) = event.event.structure.unify(&p.trigger.event.structure, None) {
                    proof {
                        assert forall|f: spec_fn(u32) -> TermModel| #[trigger] satisfies(f, b.constraints())
                            implies apply_structure(f, event.event.structure@) == apply_structure(f, p.trigger.event.structure@) by {
                            crate::knowledge::answers::lemma_entails_equal_structure(b, f, event.event.structure@, p.trigger.event.structure@);
                        }
                    }
                    match &p.context {
                        None => {
                            if selector.filter_plan(p) {
                                proof {
                                    crate::bindings::lemma_well_kept_satisfied(b);
                                }
                                return Some((i, b));
                            }
                        },
                        Some(c) => {
                            assert(sure ==> crate::bindings::starts_empty(Some(&b)));
                            let found = knowledge.answers(c, Some(&b), depth, eval);
                            proof {
                                if by_facts {
                                    let f = choose|f: spec_fn(u32) -> TermModel| {
                                        &&& #[trigger] apply_structure(f, event.event.structure@) == apply_structure(f, p.trigger.event.structure@)
                                        &&& (p.context matches Some(c) ==> exists|j: int| 0 <= j < lowered(c@).conjunctions.len()
                                            && #[trigger] facts_meet(f, lowered(c@).conjunctions[j], knowledge.contents()))
                                    };
                                    assert(satisfies(f, crate::bindings::optional_constraints(None)));
                                    assert(satisfies(f, b.constraints()));
                                    assert(crate::bindings::optional_constraints(Some(&b)) == b.constraints());
                                    let j = choose|j: int| 0 <= j < lowered(c@).conjunctions.len()
                                        && #[trigger] facts_meet(f, lowered(c@).conjunctions[j], knowledge.contents());
                                    assert(covered(found@, f));
                                }
                            }
                            proof {
                                if sure && context_matches_fact(*c, knowledge.contents()) {
                                    let (j, m, g) = choose|j: int, m: LiteralModel, g: LiteralModel| #![trigger lowered(c@).conjunctions[j], ground_fact_for(g, m)] {
                                        &&& 0 <= j < lowered(c@).conjunctions.len()
                                        &&& lowered(c@).conjunctions[j] == seq![LeafModel { negated: false, operand: OperandModel::Literal(m) }]
                                        &&& knowledge.contents().contains((g, None::<FormulaModel>))
                                        &&& ground_fact_for(g, m)
                                    };
                                    assert(finds(found@, m, g));
                                }
                            }
                            if found.len() > 0 && selector.filter_plan(p) {
                                let a = found[0].clone();
                                proof {
                                    assert(well_kept(found@[0]));
                                    crate::bindings::lemma_well_kept_alike(found@[0], a);
                                    crate::bindings::lemma_well_kept_satisfied(a);
                                }
                                proof {
                                    assert forall|f: spec_fn(u32) -> TermModel| #[trigger] satisfies(f, a.constraints()) implies {
                                        &&& apply_structure(f, event.event.structure@) == apply_structure(f, p.trigger.event.structure@)
                                        &&& plan_sound(f, lowered(c@), knowledge.contents())
                                    } by {
                                        assert(a.constraints() == found@[0].constraints());
                                        assert(satisfies(f, found@[0].constraints()));
                                        assert(satisfies(f, b.constraints()));
                                    }
                                }
                                return Some((i, a));
                            }
                        },
                    }
                }
            }
            i += 1;
        }
        None
    }
}

} // verus!
