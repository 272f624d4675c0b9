//! The knowledge of an agent: beliefs, some of them derived by rules, and the formulas
//! that query them.

pub mod answers;
pub mod lowering;
pub mod query;

use vstd::prelude::*;

use crate::event::{EventSource, Trigger, TriggeringEvent};
use crate::literal::Literal;
use crate::term::{Atom, LiteralModel};

use self::query::{FormulaModel, QueryFormula};

verus! {

broadcast use vstd::std_specs::vec::group_vec_axioms;

/// A belief, and the rule that derives it, if it is derived.
#[derive(Debug, PartialEq, Eq)]
pub struct Knowledge {
    pub belief: Literal,
    pub rule: Option<QueryFormula>,
}

/// The mathematical value of a [`Knowledge`].
pub type KnowledgeModel = (LiteralModel, Option<FormulaModel>);

impl View for Knowledge {
    type V = KnowledgeModel;

    open spec fn view(&self) -> KnowledgeModel {
        (
            self.belief@,
            match self.rule {
                Some(r) => Some(r@),
                None => None,
            },
        )
    }
}

impl Knowledge {
    /// A plain belief.
    pub fn from_belief(belief: Literal) -> (r: Knowledge)
        ensures
            r@ == (belief@, None::<FormulaModel>),
    {
        Knowledge { belief, rule: None }
    }

    /// A belief derived by the rule.
    pub fn from_literal_with_rule(belief: Literal, rule: QueryFormula) -> (r: Knowledge)
        ensures
            r@ == (belief@, Some(rule@)),
    {
        Knowledge { belief, rule: Some(rule) }
    }

    /// Whether the two have the same value.
    pub fn equals(&self, other: &Knowledge) -> (r: bool)
        ensures
            r == (self@ == other@),
    {
        if !self.belief.equals(&other.belief) {
            return false;
        }
        match (&self.rule, &other.rule) {
            (Some(a), Some(b)) => a.equals(b),
            (None, None) => true,
            _ => false,
        }
    }

    /// The functor of the belief and the number of its arguments.
    pub fn atom_and_arity(&self) -> (r: (Atom, usize))
        ensures
            r.0.0@ == self.belief@.structure.functor,
            r.1 == crate::term::argument_terms(self.belief@.structure.arguments).len(),
    {
        self.belief.structure.atom_and_arity()
    }
}

pub open spec fn knowledge_models(ks: Seq<Knowledge>) -> Seq<KnowledgeModel> {
    ks.map_values(|k: Knowledge| k@)
}

/// What an agent knows: a set of beliefs, each with the rule that derives it, if any.
#[derive(Debug)]
pub struct KnowledgeBase {
    knowledge: Vec<Knowledge>,
}

impl KnowledgeBase {
    /// The knowledge held.
    pub closed spec fn contents(&self) -> Set<KnowledgeModel> {
        knowledge_models(self.knowledge@).to_set()
    }

    /// Nothing is held twice.
    pub closed spec fn wf(&self) -> bool {
        knowledge_models(self.knowledge@).no_duplicates()
    }

    /// Nothing known.
    pub fn new() -> (r: Self)
        ensures
            r.wf(),
            r.contents() == Set::<KnowledgeModel>::empty(),
    {
        let r = KnowledgeBase { knowledge: Vec::new() };
        assert(r.contents() =~= Set::<KnowledgeModel>::empty());
        r
    }

    /// The knowledge held, in the order it was added.
    pub fn items(&self) -> (r: &Vec<Knowledge>)
        ensures
            forall|i: int| 0 <= i < r@.len() ==> self.contents().contains(#[trigger] r@[i]@),
            forall|k: KnowledgeModel| #[trigger] self.contents().contains(k) ==> exists|i: int| 0 <= i < r@.len() && r@[i]@ == k,
    {
        proof {
            assert forall|i: int| 0 <= i < self.knowledge@.len() implies self.contents().contains(#[trigger] self.knowledge@[i]@) by {
                assert(knowledge_models(self.knowledge@)[i] == self.knowledge@[i]@);
            }
            assert forall|k: KnowledgeModel| #[trigger] self.contents().contains(k) implies exists|i: int| 0 <= i < self.knowledge@.len() && self.knowledge@[i]@ == k by {
                let ms = knowledge_models(self.knowledge@);
                assert(ms.contains(k));
                let i = choose|i: int| 0 <= i < ms.len() && ms[i] == k;
                assert(ms[i] == self.knowledge@[i]@);
            }
        }
        &self.knowledge
    }

    /// The position of the knowledge, if held.
    fn position(&self, k: &Knowledge) -> (r: Option<usize>)
        ensures
            match r {
                Some(i) => i < self.knowledge@.len() && self.knowledge@[i as int]@ == k@,
                None => !self.contents().contains(k@),
            },
    {
        let mut i: usize = 0;
        while i < self.knowledge.len()
            invariant
                i <= self.knowledge@.len(),
                forall|j: int| 0 <= j < i ==> self.knowledge@[j]@ != k@,
            decreases self.knowledge@.len() - i,
        {
            if self.knowledge[i].equals(k) {
                return Some(i);
            }
            i += 1;
        }
        proof {
            if self.contents().contains(k@) {
                let j = choose|j: int| 0 <= j < knowledge_models(self.knowledge@).len() && knowledge_models(self.knowledge@)[j] == k@;
                assert(self.knowledge@[j]@ == k@);
            }
        }
        None
    }

    /// Whether the knowledge is held.
    pub fn contains(&self, k: &Knowledge) -> (r: bool)
        ensures
            r == self.contents().contains(k@),
    {
        match self.position(k) {
            Some(i) => {
                assert(knowledge_models(self.knowledge@)[i as int] == k@);
                true
            },
            None => false,
        }
    }

    /// Adds the knowledge without raising an event; returns whether it was already held.
    pub fn assert_no_event(&mut self, k: Knowledge) -> (r: bool)
        requires
            old(self).wf(),
        ensures
            final(self).wf(),
            r == old(self).contents().contains(k@),
            final(self).contents() == old(self).contents().insert(k@),
    {
        if self.contains(&k) {
            assert(old(self).contents().insert(k@) =~= old(self).contents());
            return true;
        }
        let ghost kv = k@;
        let ghost before = knowledge_models(self.knowledge@);
        self.knowledge.push(k);
        proof {
            assert(knowledge_models(self.knowledge@) =~= before.push(kv));
            assert(knowledge_models(self.knowledge@).to_set() =~= before.to_set().insert(kv)) by {
                assert forall|x: KnowledgeModel| before.push(kv).contains(x) <==> before.contains(x) || x == kv by {
                    if before.push(kv).contains(x) {
                        let j = choose|j: int| 0 <= j < before.push(kv).len() && before.push(kv)[j] == x;
                        if j < before.len() {
                            assert(before[j] == x);
                        }
                    }
                    if before.contains(x) {
                        let j = choose|j: int| 0 <= j < before.len() && before[j] == x;
                        assert(before.push(kv)[j] == x);
                    }
                    if x == kv {
                        assert(before.push(kv)[before.len() as int] == x);
                    }
                }
            }
            assert forall|a: int, b: int| 0 <= a < b < before.push(kv).len() implies before.push(kv)[a] != before.push(kv)[b] by {
                if b == before.len() {
                    assert(before.contains(before[a]));
                }
            }
        }
        false
    }

    /// Removes the knowledge; returns whether it was held.
    pub fn remove_no_event(&mut self, k: &Knowledge) -> (r: bool)
        requires
            old(self).wf(),
        ensures
            final(self).wf(),
            r == old(self).contents().contains(k@),
            final(self).contents() == old(self).contents().remove(k@),
    {
        match self.position(k) {
            None => {
                assert(old(self).contents().remove(k@) =~= old(self).contents());
                false
            },
            Some(i) => {
                let ghost before = knowledge_models(self.knowledge@);
                assert(before[i as int] == k@);
                self.knowledge.remove(i);
                proof {
                    let after = knowledge_models(self.knowledge@);
                    assert(after =~= before.remove(i as int));
                    assert forall|x: KnowledgeModel| after.contains(x) <==> (before.contains(x) && x != k@) by {
                        if after.contains(x) {
                            let j = choose|j: int| 0 <= j < after.len() && after[j] == x;
                            if j < i {
                                assert(before[j] == x);
                                assert(j != i);
                            } else {
                                assert(before[j + 1] == x);
                            }
                        }
                        if before.contains(x) && x != k@ {
                            let j = choose|j: int| 0 <= j < before.len() && before[j] == x;
                            if j < i {
                                assert(after[j] == x);
                            } else if j > i {
                                assert(after[j - 1] == x);
                            }
                        }
                    }
                    assert(after.to_set() =~= before.to_set().remove(k@));
                    assert forall|a: int, b: int| 0 <= a < b < after.len() implies after[a] != after[b] by {
                        let a0 = if a < i { a } else { a + 1 };
                        let b0 = if b < i { b } else { b + 1 };
                        assert(after[a] == before[a0]);
                        assert(after[b] == before[b0]);
                    }
                }
                true
            },
        }
    }

    /// Adds the belief; returns whether it was already held. When it is new, the addition
    /// is an event from outside.
    pub fn assert_belief(&mut self, belief: Literal, events: &mut Vec<(EventSource, TriggeringEvent)>) -> (r: bool)
        requires
            old(self).wf(),
        ensures
            final(self).wf(),
            r == old(self).contents().contains((belief@, None::<FormulaModel>)),
            final(self).contents() == old(self).contents().insert((belief@, None::<FormulaModel>)),
            final(events)@.len() == old(events)@.len() + if r { 0int } else { 1int },
            forall|i: int| 0 <= i < old(events)@.len() ==> final(events)@[i] == old(events)@[i],
            !r ==> final(events)@.last().0 == EventSource::External && final(events)@.last().1@ == (Trigger::Addition, belief@, None::<crate::event::GoalKind>),
    {
        let event = belief.clone();
        let held = self.assert_no_event(Knowledge::from_belief(belief));
        if !held {
            events.push((EventSource::External, TriggeringEvent { trigger: Trigger::Addition, event, goal: None }));
        }
        held
    }

    /// Removes the belief; when it was held, the removal is an event from outside.
    pub fn remove_belief(&mut self, belief: Literal, events: &mut Vec<(EventSource, TriggeringEvent)>) -> (r: bool)
        requires
            old(self).wf(),
        ensures
            final(self).wf(),
            r == old(self).contents().contains((belief@, None::<FormulaModel>)),
            final(self).contents() == old(self).contents().remove((belief@, None::<FormulaModel>)),
            final(events)@.len() == old(events)@.len() + if r { 1int } else { 0int },
            forall|i: int| 0 <= i < old(events)@.len() ==> final(events)@[i] == old(events)@[i],
            r ==> final(events)@.last().0 == EventSource::External && final(events)@.last().1@ == (Trigger::Deletion, belief@, None::<crate::event::GoalKind>),
    {
        let event = belief.clone();
        let removed = self.remove_no_event(&Knowledge::from_belief(belief));
        if removed {
            events.push((EventSource::External, TriggeringEvent { trigger: Trigger::Deletion, event, goal: None }));
        }
        removed
    }

    /// A knowledge base that holds the given knowledge.
    pub fn from_knowledge(items: Vec<Knowledge>) -> (r: Self)
        ensures
            r.wf(),
            r.contents() == knowledge_models(items@).to_set(),
    {
        let mut kb = KnowledgeBase::new();
        let mut items = items;
        let ghost all = knowledge_models(items@).to_set();
        while items.len() > 0
            invariant
                kb.wf(),
                kb.contents().union(knowledge_models(items@).to_set()) == all,
            decreases items.len(),
        {
            let ghost before = knowledge_models(items@);
            let k = items.pop().unwrap();
            proof {
                let after = knowledge_models(items@);
                assert(after =~= before.drop_last());
                assert(before.last() == k@);
                assert(before.to_set() =~= after.to_set().insert(k@)) by {
                    assert forall|x: KnowledgeModel| before.contains(x) <==> after.contains(x) || x == k@ by {
                        if before.contains(x) {
                            let j = choose|j: int| 0 <= j < before.len() && before[j] == x;
                            if j < after.len() {
                                assert(after[j] == x);
                            }
                        }
                        if after.contains(x) {
                            let j = choose|j: int| 0 <= j < after.len() && after[j] == x;
                            assert(before[j] == x);
                        }
                        if x == k@ {
                            assert(before[before.len() - 1] == x);
                        }
                    }
                }
            }
            kb.assert_no_event(k);
            proof {
                assert(kb.contents().union(knowledge_models(items@).to_set()) =~= all);
            }
        }
        proof {
            assert(knowledge_models(items@).to_set() =~= Set::<KnowledgeModel>::empty());
            assert(kb.contents() =~= all);
        }
        kb
    }
}

/// Adding knowledge that is not held and removing it again leaves what is known unchanged.
pub proof fn lemma_assert_then_remove(contents: Set<KnowledgeModel>, k: KnowledgeModel)
    requires
        !contents.contains(k),
    ensures
        contents.insert(k).remove(k) == contents,
{
    assert(contents.insert(k).remove(k) =~= contents);
}

/// Removing knowledge that is held and adding it again leaves what is known unchanged.
pub proof fn lemma_remove_then_assert(contents: Set<KnowledgeModel>, k: KnowledgeModel)
    requires
        contents.contains(k),
    ensures
        contents.remove(k).insert(k) == contents,
{
    assert(contents.remove(k).insert(k) =~= contents);
}

} // verus!
