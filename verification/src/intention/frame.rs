//! A plan being run by an intention: the formulas of its body still to run and the
//! bindings they run under.
//!
//! A step runs one formula. Beliefs, goals and unifications of plain terms are carried
//! out here. What needs the agent around the frame is handed back instead: the value of
//! an arithmetic side of a unification ([`FrameStep::Evaluate`]), and the running of an
//! action ([`FrameStep::Run`]); the caller then finishes the step with
//! [`Frame::finish_unify`] or [`Frame::finish_action`].

use vstd::prelude::*;

use crate::bindings::{all_constraints, alias_constraints, bound_constraints, ground_entries, Bindings};
use crate::bindings::solver::weight;
use crate::event::{EventSource, Trigger, TriggeringEvent};
use crate::knowledge::query::{ArithmeticExpression, EvaluationError, FormulaModel};
use crate::knowledge::{Knowledge, KnowledgeBase, KnowledgeModel};
use crate::literal::Literal;
use crate::plan::{action_blocks, Action, ExecuteResult, Formula, Execute};
use crate::resolve::Resolve;
use crate::term::{all_ground, argument_terms, ground, terms_variables, LiteralModel, Term, TermModel};
use crate::unification::error::UnificationError;
use crate::unification::substitution::{apply, satisfies};
use crate::unification::traits::{apply_structure, term_constraints, unifiable, unifiable_in_bounds};

use super::{IntentionId, StepError, StepOk};

verus! {

broadcast use vstd::std_specs::vec::group_vec_axioms;

/// A plan being run by an intention.
#[derive(Debug)]
pub struct Frame<A> {
    /// The intention the frame belongs to.
    pub intention_id: IntentionId,
    /// The event the plan was chosen for.
    pub event: TriggeringEvent,
    /// The bindings the frame was created with, and those its steps have added.
    pub bindings: Bindings,
    /// The formulas of the body still to run, the next one last.
    pub remaining: Vec<Formula<A>>,
}

/// An action that has more to do, with the bindings it runs under.
#[derive(Debug)]
pub struct PendingAction<A> {
    pub action: Action<A>,
    pub bindings: Bindings,
}

/// What a step of a frame came to.
#[derive(Debug)]
pub enum FrameStep<A> {
    /// The step is over.
    Stepped(Result<StepOk, StepError>),
    /// The sides of a unification, one of them an arithmetic operation: the step is
    /// finished with their values.
    Evaluate(ArithmeticExpression, ArithmeticExpression),
    /// The action is to be run under the frame's bindings: the step is finished with how
    /// it went.
    Run(Action<A>),
}

/// The literal under the bindings.
pub open spec fn resolved(b: Bindings, l: Literal) -> LiteralModel {
    LiteralModel { negated: l.negated, structure: apply_structure(b.lookup(), l.structure@) }
}

/// How a step ends that leaves the frame with the given formulas still to run: it is
/// done once none is left.
pub open spec fn finished<A>(remaining: Seq<Formula<A>>) -> StepOk {
    if remaining.len() == 0 { StepOk::Done } else { StepOk::Pending }
}

/// The two bindings say the same.
pub open spec fn same_bindings(b0: Bindings, b1: Bindings) -> bool {
    b1.entries() == b0.entries() && b1.alias_pairs() == b0.alias_pairs()
}

/// `e1` is `e0` with one more event, from the source, with the given value.
pub open spec fn pushed(
    e0: Seq<(EventSource, TriggeringEvent)>,
    e1: Seq<(EventSource, TriggeringEvent)>,
    source: EventSource,
    event: (Trigger, LiteralModel, Option<crate::event::GoalKind>),
) -> bool {
    &&& e1.len() == e0.len() + 1
    &&& e1.take(e0.len() as int) == e0
    &&& e1.last().0 == source
    &&& e1.last().1@ == event
}

/// `e1` is `e0` with at most one more event, raised by the intention `id`.
pub open spec fn raised_by(e0: Seq<(EventSource, TriggeringEvent)>, e1: Seq<(EventSource, TriggeringEvent)>, id: IntentionId) -> bool {
    &&& e0.len() <= e1.len() <= e0.len() + 1
    &&& e1.take(e0.len() as int) == e0
    &&& forall|j: int| e0.len() <= j < e1.len() ==> (#[trigger] e1[j]).0 == EventSource::Internal(id)
}

/// `a1` is `a0` with at most one more pending action, held by the intention `id` or by
/// none.
pub open spec fn dispatched_by<A>(a0: Seq<(Option<IntentionId>, PendingAction<A>)>, a1: Seq<(Option<IntentionId>, PendingAction<A>)>, id: IntentionId) -> bool {
    &&& a0.len() <= a1.len() <= a0.len() + 1
    &&& a1.take(a0.len() as int) == a0
    &&& forall|j: int| a0.len() <= j < a1.len() ==> (#[trigger] a1[j]).0 is None || a1[j].0 == Some(id)
}

/// How unifying two terms under the bindings `b0` may end, with bindings `b1` after it
/// and `done` the outcome of a step that succeeds: with bindings under which the terms are
/// equal and the old bindings still hold; or failed, with the bindings as they were, and
/// surely failed where the terms can never be equal. When one of the terms holds no
/// variable and the bindings bind no variable to a term with variables, it succeeds
/// exactly when some substitution makes the terms equal and meets the old bindings; and
/// whatever the terms, it succeeds when such a substitution keeps them of fewer than 2^64
/// nodes.
pub open spec fn unify_outcome(b0: Bindings, b1: Bindings, l: TermModel, t: TermModel, done: StepOk, r: Result<StepOk, StepError>) -> bool {
    &&& match r {
        Ok(s) => s == done && apply(b1.solution(), l) == apply(b1.solution(), t) && satisfies(b1.solution(), b0.constraints()) && b1.idempotent(),
        Err(e) => e == StepError::UnifyFailed && same_bindings(b0, b1),
    }
    &&& term_constraints(l, t) is Err ==> r == Err::<StepOk, StepError>(StepError::UnifyFailed)
    &&& (ground(l) || ground(t)) && ground_entries(b0) ==> (r is Ok <==> unifiable(l, t, b0.constraints()))
    &&& unifiable_in_bounds(l, t, b0.constraints()) ==> r is Ok
}

/// How merging the bindings `b` into the frame's bindings `b0` may end, with `b1` after
/// it: with bindings under which both hold, or failed with the bindings as they were.
/// When neither binds a variable to a term with variables, it succeeds exactly when some
/// substitution meets both; and whatever they bind, it succeeds when such a substitution
/// keeps the terms they give of fewer than 2^64 nodes in all.
pub open spec fn merge_outcome(b0: Bindings, b: Bindings, b1: Bindings, done: StepOk, r: Result<StepOk, StepError>) -> bool {
    let cs = all_constraints(seq![b0, b]);
    &&& match r {
        Ok(s) => s == done && satisfies(b1.solution(), cs) && b1.idempotent(),
        Err(e) => e matches StepError::MergeFailed(u) && same_bindings(b0, b1) && (u != UnificationError::StepLimitReached ==> forall|f: spec_fn(u32) -> TermModel| !#[trigger] satisfies(f, cs)),
    }
    &&& ground_entries(b0) && ground_entries(b) ==> (r is Ok <==> exists|f: spec_fn(u32) -> TermModel| #[trigger] satisfies(f, cs))
    &&& (exists|f: spec_fn(u32) -> TermModel| #[trigger] satisfies(f, cs) && weight(f, cs) < u64::MAX) ==> r is Ok
}

/// What a step does to a frame `f0` (giving `f1`), to the contents of the knowledge base
/// (`c0` to `c1`) and to the raised events (`e0` to `e1`), and what it comes to.
pub open spec fn frame_stepped<A>(
    f0: Frame<A>,
    f1: Frame<A>,
    c0: Set<KnowledgeModel>,
    c1: Set<KnowledgeModel>,
    e0: Seq<(EventSource, TriggeringEvent)>,
    e1: Seq<(EventSource, TriggeringEvent)>,
    r: FrameStep<A>,
) -> bool {
    &&& f1.intention_id == f0.intention_id
    &&& f1.event == f0.event
    &&& if f0.remaining@.len() == 0 {
        &&& r == FrameStep::<A>::Stepped(Ok(StepOk::Done))
        &&& f1.remaining@ == f0.remaining@
        &&& same_bindings(f0.bindings, f1.bindings)
        &&& c1 == c0
        &&& e1 == e0
    } else {
        &&& f1.remaining@ == f0.remaining@.drop_last()
        &&& match f0.remaining@.last() {
            Formula::Belief { trigger, belief, silent } => {
                let m = resolved(f0.bindings, belief);
                let k = (m, None::<FormulaModel>);
                let changed = if trigger == Trigger::Addition { !c0.contains(k) } else { c0.contains(k) };
                &&& same_bindings(f0.bindings, f1.bindings)
                &&& if !all_ground(argument_terms(m.structure.arguments)) {
                    &&& r == FrameStep::<A>::Stepped(Err(StepError::ResolveIncomplete))
                    &&& c1 == c0
                    &&& e1 == e0
                } else {
                    &&& c1 == if trigger == Trigger::Addition { c0.insert(k) } else { c0.remove(k) }
                    &&& if !silent && changed {
                        pushed(e0, e1, EventSource::Internal(f0.intention_id), (trigger, m, None))
                    } else {
                        e1 == e0
                    }
                    &&& r == FrameStep::<A>::Stepped(Ok(finished(f1.remaining@)))
                }
            },
            Formula::Goal { kind, goal } => {
                &&& same_bindings(f0.bindings, f1.bindings)
                &&& c1 == c0
                &&& pushed(e0, e1, EventSource::Internal(f0.intention_id), (Trigger::Addition, resolved(f0.bindings, goal), Some(kind)))
                &&& r == FrameStep::<A>::Stepped(Ok(finished(f1.remaining@)))
            },
            Formula::Unify { lhs, rhs } => {
                &&& c1 == c0
                &&& e1 == e0
                &&& match (lhs, rhs) {
                    (ArithmeticExpression::Term(l), ArithmeticExpression::Term(t)) => r matches FrameStep::Stepped(x)
                        && unify_outcome(f0.bindings, f1.bindings, l@, t@, finished(f1.remaining@), x),
                    _ => r == FrameStep::<A>::Evaluate(lhs, rhs) && same_bindings(f0.bindings, f1.bindings),
                }
            },
            Formula::Action(a) => {
                &&& r == FrameStep::<A>::Run(a)
                &&& same_bindings(f0.bindings, f1.bindings)
                &&& c1 == c0
                &&& e1 == e0
            },
        }
    }
}

/// What finishing a unification with the values of its sides does to a frame.
pub open spec fn unify_finished<A>(f0: Frame<A>, f1: Frame<A>, sides: Result<(Term, Term), EvaluationError>, r: Result<StepOk, StepError>) -> bool {
    &&& f1.intention_id == f0.intention_id
    &&& f1.event == f0.event
    &&& f1.remaining@ == f0.remaining@
    &&& match sides {
        Ok((l, t)) => unify_outcome(f0.bindings, f1.bindings, l@, t@, finished(f0.remaining@), r),
        Err(e) => r == Err::<StepOk, StepError>(StepError::UnifyEvalError(e)) && same_bindings(f0.bindings, f1.bindings),
    }
}

/// What finishing the run of an action with how it went does to a frame and to the
/// dispatched actions (`a0` to `a1`).
pub open spec fn action_finished<A: Execute>(
    f0: Frame<A>,
    f1: Frame<A>,
    a0: Seq<(Option<IntentionId>, PendingAction<A>)>,
    a1: Seq<(Option<IntentionId>, PendingAction<A>)>,
    result: ExecuteResult<Action<A>>,
    r: Result<StepOk, StepError>,
) -> bool {
    &&& f1.intention_id == f0.intention_id
    &&& f1.event == f0.event
    &&& f1.remaining@ == f0.remaining@
    &&& match result {
        ExecuteResult::Pending(a) => {
            let p = a1.last();
            &&& same_bindings(f0.bindings, f1.bindings)
            &&& a1.len() == a0.len() + 1
            &&& a1.take(a0.len() as int) == a0
            &&& p.1.action == a
            &&& same_bindings(f0.bindings, p.1.bindings)
            &&& (p.0 is Some ==> p.0 == Some(f0.intention_id))
            &&& (p.0 is Some <==> action_blocks(a))
            &&& r == Ok::<StepOk, StepError>(if f0.remaining@.len() == 0 && p.0 is None { StepOk::Done } else { StepOk::Pending })
        },
        ExecuteResult::Done(Some(b)) => a1 == a0 && merge_outcome(f0.bindings, b, f1.bindings, finished(f0.remaining@), r),
        ExecuteResult::Done(None) => a1 == a0 && same_bindings(f0.bindings, f1.bindings) && r == Ok::<StepOk, StepError>(finished(f0.remaining@)),
    }
}

impl<A> Frame<A> {
    /// A frame that runs the body, first formula first, under the bindings.
    pub fn new(body: Vec<Formula<A>>, bindings: Bindings, intention_id: IntentionId, event: TriggeringEvent) -> (r: Frame<A>)
        ensures
            r.intention_id == intention_id,
            r.event == event,
            same_bindings(bindings, r.bindings),
            r.remaining@.len() == body@.len(),
            forall|i: int| 0 <= i < body@.len() ==> #[trigger] r.remaining@[i] == body@[body@.len() - 1 - i],
    {
        let ghost given = body@;
        let mut body = body;
        let mut remaining: Vec<Formula<A>> = Vec::new();
        while body.len() > 0
            invariant
                body@ == given.take(body@.len() as int),
                remaining@.len() + body@.len() == given.len(),
                forall|i: int| 0 <= i < remaining@.len() ==> #[trigger] remaining@[i] == given[given.len() - 1 - i],
            decreases body@.len(),
        {
            let ghost n = body@.len();
            let f = body.pop().unwrap();
            assert(f == given[n - 1]);
            assert(body@ =~= given.take(n - 1));
            remaining.push(f);
        }
        Frame { intention_id, event, bindings, remaining }
    }

    /// How a step ends now that it has run its formula.
    fn finished(&self) -> (r: StepOk)
        ensures
            r == finished(self.remaining@),
    {
        if self.remaining.len() == 0 { StepOk::Done } else { StepOk::Pending }
    }

    /// Unifies the two terms under the frame's bindings; on success, the result becomes
    /// the frame's bindings.
    fn unify_terms(&mut self, l: &Term, t: &Term) -> (r: Result<StepOk, StepError>)
        ensures
            final(self).intention_id == old(self).intention_id,
            final(self).event == old(self).event,
            final(self).remaining@ == old(self).remaining@,
            unify_outcome(old(self).bindings, final(self).bindings, l@, t@, finished(old(self).remaining@), r),
    {
        assert(crate::bindings::optional_constraints(Some(&self.bindings)) == self.bindings.constraints());
        match l.unify(t, Some(&self.bindings)) {
            Ok(b) => {
                self.bindings = b;
                Ok(self.finished())
            },
            Err(_) => Err(StepError::UnifyFailed),
        }
    }

    /// Merges the bindings into the frame's.
    fn merge(&mut self, b: Bindings, done: StepOk) -> (r: Result<StepOk, StepError>)
        ensures
            final(self).intention_id == old(self).intention_id,
            final(self).event == old(self).event,
            final(self).remaining@ == old(self).remaining@,
            merge_outcome(old(self).bindings, b, final(self).bindings, done, r),
    {
        let ghost b0 = self.bindings;
        let both = vec![self.bindings.clone(), b];
        proof {
            let s1 = both@;
            let s2 = seq![b0, b];
            assert(s1.drop_last() =~= seq![s1[0]]);
            assert(s2.drop_last() =~= seq![b0]);
            assert(seq![s1[0]].drop_last() =~= Seq::<Bindings>::empty());
            assert(seq![b0].drop_last() =~= Seq::<Bindings>::empty());
            assert(s1[0].constraints() == b0.constraints());
            reveal_with_fuel(all_constraints, 3);
            assert(all_constraints(s1) =~= all_constraints(s2));
            if ground_entries(b0) && ground_entries(b) {
                assert(s1[0].entries() == b0.entries());
                assert forall|k: int| 0 <= k < s1.len() implies ground_entries(#[trigger] s1[k]) by {
                    if k == 0 {
                        assert(s1[0].entries() == b0.entries());
                    } else {
                        assert(s1[1] == b);
                    }
                }
            }
        }
        match Bindings::merge_views(&both) {
            Ok(m) => {
                self.bindings = m;
                Ok(done)
            },
            Err(e) => Err(StepError::MergeFailed(e)),
        }
    }

    /// Runs the next formula of the body.
    pub fn step(&mut self, knowledge: &mut KnowledgeBase, events: &mut Vec<(EventSource, TriggeringEvent)>) -> (r: FrameStep<A>)
        requires
            old(knowledge).wf(),
        ensures
            final(knowledge).wf(),
            frame_stepped(*old(self), *final(self), old(knowledge).contents(), final(knowledge).contents(), old(events)@, final(events)@, r),
    {
        let ghost f0 = *self;
        let formula = match self.remaining.pop() {
            Some(f) => f,
            None => {
                return FrameStep::Stepped(Ok(StepOk::Done));
            },
        };
        assert(formula == f0.remaining@.last());
        assert(self.remaining@ == f0.remaining@.drop_last());
        match formula {
            Formula::Belief { trigger, belief, silent } => {
                let belief = match belief.resolve(&self.bindings) {
                    Ok(l) => l,
                    Err(e) => {
                        return FrameStep::Stepped(Err(StepError::ResolveFailure(e)));
                    },
                };
                if !belief.is_ground() {
                    return FrameStep::Stepped(Err(StepError::ResolveIncomplete));
                }
                let event = belief.clone();
                let changed = match trigger {
                    Trigger::Addition => !knowledge.assert_no_event(Knowledge::from_belief(belief)),
                    Trigger::Deletion => knowledge.remove_no_event(&Knowledge::from_belief(belief)),
                };
                if !silent && changed {
                    let ghost before = events@;
                    events.push((EventSource::Internal(self.intention_id), TriggeringEvent { trigger, event, goal: None }));
                    assert(events@.take(before.len() as int) =~= before);
                }
                FrameStep::Stepped(Ok(self.finished()))
            },
            Formula::Goal { kind, goal } => {
                let goal = match goal.resolve(&self.bindings) {
                    Ok(l) => l,
                    Err(e) => {
                        return FrameStep::Stepped(Err(StepError::ResolveFailure(e)));
                    },
                };
                let ghost before = events@;
                events.push((EventSource::Internal(self.intention_id), TriggeringEvent { trigger: Trigger::Addition, event: goal, goal: Some(kind) }));
                assert(events@.take(before.len() as int) =~= before);
                FrameStep::Stepped(Ok(self.finished()))
            },
            Formula::Unify { lhs, rhs } => match (&lhs, &rhs) {
                (ArithmeticExpression::Term(l), ArithmeticExpression::Term(t)) => FrameStep::Stepped(self.unify_terms(l, t)),
                _ => FrameStep::Evaluate(lhs, rhs),
            },
            Formula::Action(a) => FrameStep::Run(a),
        }
    }

    /// Finishes a step that unifies two sides, given their values (or why they have none).
    pub fn finish_unify(&mut self, sides: Result<(Term, Term), EvaluationError>) -> (r: Result<StepOk, StepError>)
        ensures
            unify_finished(*old(self), *final(self), sides, r),
    {
        match sides {
            Ok((l, t)) => self.unify_terms(&l, &t),
            Err(e) => Err(StepError::UnifyEvalError(e)),
        }
    }

    /// What the frame's bindings say of the variables of its event alone: what the frame
    /// hands back to the one below it when it is done.
    pub fn take_filtered_bindings(&self) -> (r: Bindings)
        ensures
            r.entries() == self.bindings.entries().filter(
                |e: (u32, Option<TermModel>)| terms_variables(argument_terms(self.event.event@.structure.arguments)).contains(e.0),
            ),
            r.alias_pairs() == Seq::<(u32, u32)>::empty(),
    {
        let vars = self.event.event.variables();
        self.bindings.restricted_to(&vars)
    }
}

impl<A: Execute> Frame<A> {
    /// Finishes a step that ran an action, given how it went. An action with more to do is
    /// dispatched to `actions`, with a copy of the frame's bindings, naming the intention
    /// when it holds the intention; bindings the action produced are merged into the
    /// frame's.
    pub fn finish_action(&mut self, result: ExecuteResult<Action<A>>, actions: &mut Vec<(Option<IntentionId>, PendingAction<A>)>) -> (r: Result<StepOk, StepError>)
        ensures
            action_finished(*old(self), *final(self), old(actions)@, final(actions)@, result, r),
    {
        match result {
            ExecuteResult::Pending(action) => {
                let blocks = action.should_block_intention();
                let intention = if blocks { Some(self.intention_id) } else { None };
                let bindings = self.bindings.clone();
                let ghost before = actions@;
                actions.push((intention, PendingAction { action, bindings }));
                assert(actions@.take(before.len() as int) =~= before);
                if self.remaining.len() == 0 && !blocks {
                    Ok(StepOk::Done)
                } else {
                    Ok(StepOk::Pending)
                }
            },
            ExecuteResult::Done(Some(b)) => {
                let done = self.finished();
                self.merge(b, done)
            },
            ExecuteResult::Done(None) => Ok(self.finished()),
        }
    }
}

/// The constraints a frame that is done hands to the frame below it: what its bindings
/// say of the variables of its event.
pub open spec fn handed_constraints<A>(f: Frame<A>) -> Seq<(u32, TermModel)> {
    bound_constraints(f.bindings.entries().filter(
        |e: (u32, Option<TermModel>)| terms_variables(argument_terms(f.event.event@.structure.arguments)).contains(e.0),
    ))
}

/// What completing the top frame of the stack `s0` does (giving `s1`): the frame goes, and
/// what it hands back is merged into the bindings of the frame below, if there is one.
pub open spec fn completed<A>(s0: Seq<Frame<A>>, s1: Seq<Frame<A>>, r: Result<StepOk, StepError>) -> bool {
    let n = s0.len();
    if n <= 1 {
        s1.len() == 0 && r == Ok::<StepOk, StepError>(StepOk::Done)
    } else {
        let below = s0[n - 2];
        let after = s1.last();
        let cs = handed_constraints(s0.last()) + below.bindings.constraints();
        &&& s1.len() == n - 1
        &&& s1.take(n - 2) == s0.take(n - 2)
        &&& after.intention_id == below.intention_id
        &&& after.event == below.event
        &&& after.remaining@ == below.remaining@
        &&& match r {
            Ok(s) => s == StepOk::Pending && satisfies(after.bindings.solution(), cs) && after.bindings.idempotent(),
            Err(e) => e matches StepError::MergeFailed(u) && same_bindings(below.bindings, after.bindings)
                && (u != UnificationError::StepLimitReached ==> forall|f: spec_fn(u32) -> TermModel| !#[trigger] satisfies(f, cs)),
        }
    }
}

/// How the stack `s0` ends up (as `s1`, with outcome `r`) once its top frame has become
/// `f1` with outcome `x`: a frame that is done is completed.
pub open spec fn after_top<A>(s0: Seq<Frame<A>>, f1: Frame<A>, x: Result<StepOk, StepError>, s1: Seq<Frame<A>>, r: Result<StepOk, StepError>) -> bool {
    if x == Ok::<StepOk, StepError>(StepOk::Done) {
        completed(s0.drop_last().push(f1), s1, r)
    } else {
        s1 == s0.drop_last().push(f1) && r == x
    }
}

/// What a step does to an intention `i0` (giving `i1`), to the contents of the knowledge
/// base and to the raised events, and what it comes to: the top frame runs a formula, and a
/// frame that this leaves done is completed.
pub open spec fn intention_stepped<A>(
    i0: Intention<A>,
    i1: Intention<A>,
    c0: Set<KnowledgeModel>,
    c1: Set<KnowledgeModel>,
    e0: Seq<(EventSource, TriggeringEvent)>,
    e1: Seq<(EventSource, TriggeringEvent)>,
    r: FrameStep<A>,
) -> bool {
    &&& i1.id == i0.id
    &&& i0.stack@.len() == 0 ==> {
        &&& r == FrameStep::<A>::Stepped(Ok(StepOk::Done))
        &&& i1.stack@ == i0.stack@
        &&& c1 == c0
        &&& e1 == e0
    }
    &&& i0.stack@.len() > 0 ==> exists|f1: Frame<A>, r0: FrameStep<A>|
        #[trigger] frame_stepped(i0.stack@.last(), f1, c0, c1, e0, e1, r0) && match r0 {
            FrameStep::Stepped(x) => r matches FrameStep::Stepped(y) && after_top(i0.stack@, f1, x, i1.stack@, y),
            _ => i1.stack@ == i0.stack@.drop_last().push(f1) && r == r0,
        }
}

/// What finishing a unification of the top frame does to an intention.
pub open spec fn intention_unify_finished<A>(i0: Intention<A>, i1: Intention<A>, sides: Result<(Term, Term), EvaluationError>, r: Result<StepOk, StepError>) -> bool {
    &&& i1.id == i0.id
    &&& exists|f1: Frame<A>, x: Result<StepOk, StepError>|
        #[trigger] unify_finished(i0.stack@.last(), f1, sides, x) && after_top(i0.stack@, f1, x, i1.stack@, r)
}

/// What finishing the run of an action of the top frame does to an intention and to the
/// dispatched actions.
pub open spec fn intention_action_finished<A: Execute>(
    i0: Intention<A>,
    i1: Intention<A>,
    a0: Seq<(Option<IntentionId>, PendingAction<A>)>,
    a1: Seq<(Option<IntentionId>, PendingAction<A>)>,
    result: ExecuteResult<Action<A>>,
    r: Result<StepOk, StepError>,
) -> bool {
    &&& i1.id == i0.id
    &&& exists|f1: Frame<A>, x: Result<StepOk, StepError>|
        #[trigger] action_finished(i0.stack@.last(), f1, a0, a1, result, x) && after_top(i0.stack@, f1, x, i1.stack@, r)
}

/// A stack of frames: the plan run on behalf of an event, on top of the plan that raised
/// that event, and so on.
#[derive(Debug)]
pub struct Intention<A> {
    pub id: IntentionId,
    /// The frames, the one that runs last.
    pub stack: Vec<Frame<A>>,
}

impl<A> Intention<A> {
    /// Every frame of the intention belongs to it.
    pub open spec fn owns_frames(&self) -> bool {
        forall|j: int| 0 <= j < self.stack@.len() ==> (#[trigger] self.stack@[j]).intention_id == self.id
    }

    /// An intention with no frame yet.
    pub fn new(id: IntentionId) -> (r: Intention<A>)
        ensures
            r.id == id,
            r.stack@.len() == 0,
            r.owns_frames(),
    {
        Intention { id, stack: Vec::new() }
    }

    /// How many frames the intention holds.
    pub fn stack_len(&self) -> (r: usize)
        ensures
            r == self.stack@.len(),
    {
        self.stack.len()
    }

    /// Runs the body on top of the others, under the bindings, for the event.
    pub fn push(&mut self, body: Vec<Formula<A>>, bindings: Bindings, event: TriggeringEvent)
        ensures
            final(self).id == old(self).id,
            final(self).stack@.len() == old(self).stack@.len() + 1,
            final(self).stack@.drop_last() == old(self).stack@,
            final(self).stack@.last().intention_id == old(self).id,
            old(self).owns_frames() ==> final(self).owns_frames(),
            final(self).stack@.last().event == event,
            same_bindings(bindings, final(self).stack@.last().bindings),
            final(self).stack@.last().remaining@.len() == body@.len(),
            forall|i: int| 0 <= i < body@.len() ==> #[trigger] final(self).stack@.last().remaining@[i] == body@[body@.len() - 1 - i],
    {
        let frame = Frame::new(body, bindings, self.id, event);
        self.stack.push(frame);
        assert(self.stack@.drop_last() =~= old(self).stack@);
        assert(old(self).owns_frames() ==> self.owns_frames()) by {
            if old(self).owns_frames() {
                assert forall|j: int| 0 <= j < self.stack@.len() implies (#[trigger] self.stack@[j]).intention_id == self.id by {
                    if j < old(self).stack@.len() {
                        assert(self.stack@[j] == old(self).stack@[j]);
                    }
                }
            }
        }
    }

    /// Removes the top frame, which is done, and merges what it hands back into the frame
    /// below.
    fn complete(&mut self) -> (r: Result<StepOk, StepError>)
        requires
            old(self).stack@.len() > 0,
        ensures
            final(self).id == old(self).id,
            completed(old(self).stack@, final(self).stack@, r),
            old(self).owns_frames() ==> final(self).owns_frames(),
    {
        let ghost s0 = self.stack@;
        let top = self.stack.pop().unwrap();
        let handed = top.take_filtered_bindings();
        if self.stack.len() == 0 {
            return Ok(StepOk::Done);
        }
        let mut below = self.stack.pop().unwrap();
        let ghost b0 = below.bindings;
        let both = vec![handed, below.bindings.clone()];
        proof {
            let n = s0.len();
            assert(top == s0.last());
            assert(below == s0[n - 2]);
            assert(alias_constraints(Seq::<(u32, u32)>::empty()) =~= Seq::<(u32, TermModel)>::empty());
            assert(both@[0].constraints() =~= handed_constraints(top));
            assert(both@[1].constraints() == b0.constraints());
            assert(both@.drop_last() =~= seq![both@[0]]);
            assert(seq![both@[0]].drop_last() =~= Seq::<Bindings>::empty());
            reveal_with_fuel(all_constraints, 3);
            assert(all_constraints(both@) =~= handed_constraints(top) + b0.constraints());
        }
        match Bindings::merge_views(&both) {
            Ok(m) => {
                below.bindings = m;
                self.stack.push(below);
                proof {
                    assert(self.stack@.take(s0.len() - 2) =~= s0.take(s0.len() - 2));
                    if old(self).owns_frames() {
                        lemma_completed_owns(s0, self.stack@, self.id);
                    }
                }
                Ok(StepOk::Pending)
            },
            Err(e) => {
                self.stack.push(below);
                proof {
                    assert(self.stack@.take(s0.len() - 2) =~= s0.take(s0.len() - 2));
                    if old(self).owns_frames() {
                        lemma_completed_owns(s0, self.stack@, self.id);
                    }
                }
                Err(StepError::MergeFailed(e))
            },
        }
    }

    /// Runs the next formula of the top frame; a frame that this leaves done is completed.
    pub fn step(&mut self, knowledge: &mut KnowledgeBase, events: &mut Vec<(EventSource, TriggeringEvent)>) -> (r: FrameStep<A>)
        requires
            old(knowledge).wf(),
        ensures
            final(knowledge).wf(),
            intention_stepped(*old(self), *final(self), old(knowledge).contents(), final(knowledge).contents(), old(events)@, final(events)@, r),
            old(self).owns_frames() ==> final(self).owns_frames(),
            final(self).id == old(self).id,
            old(self).owns_frames() ==> raised_by(old(events)@, final(events)@, old(self).id),
            !(r is Stepped) ==> final(self).stack@.len() > 0,
            r == FrameStep::<A>::Stepped(Ok(StepOk::Done)) || frames_work(final(self).stack@) < frames_work(old(self).stack@),
    {
        if self.stack.len() == 0 {
            assert(events@.take(events@.len() as int) =~= events@);
            return FrameStep::Stepped(Ok(StepOk::Done));
        }
        let ghost s0 = self.stack@;
        let mut frame = self.stack.pop().unwrap();
        assert(frame == s0.last());
        let ghost e0 = events@;
        let ghost c0 = knowledge.contents();
        let r0 = frame.step(knowledge, events);
        let ghost f1 = frame;
        proof {
            lemma_frame_step_raises(s0.last(), f1, c0, knowledge.contents(), e0, events@, r0);
        }
        self.stack.push(frame);
        assert(self.stack@ == s0.drop_last().push(f1));
        proof {
            if old(self).owns_frames() {
                lemma_replaced_top_owns(s0, f1, self.id);
            }
        }
        proof {
            assert(s0.drop_last().push(f1).drop_last() =~= s0.drop_last());
        }
        match r0 {
            FrameStep::Stepped(Ok(StepOk::Done)) => {
                let ghost s1 = self.stack@;
                let c = self.complete();
                proof {
                    lemma_completed_less_work(s1, self.stack@, c);
                }
                FrameStep::Stepped(c)
            },
            other => other,
        }
    }

    /// Finishes a step of the top frame that unifies two sides, given their values.
    pub fn finish_unify(&mut self, sides: Result<(Term, Term), EvaluationError>) -> (r: Result<StepOk, StepError>)
        requires
            old(self).stack@.len() > 0,
        ensures
            intention_unify_finished(*old(self), *final(self), sides, r),
            final(self).id == old(self).id,
            old(self).owns_frames() ==> final(self).owns_frames(),
            frames_work(final(self).stack@) <= frames_work(old(self).stack@),
    {
        let ghost s0 = self.stack@;
        let mut frame = self.stack.pop().unwrap();
        assert(frame == s0.last());
        let x = frame.finish_unify(sides);
        let ghost f1 = frame;
        self.stack.push(frame);
        assert(self.stack@ == s0.drop_last().push(f1));
        proof {
            if old(self).owns_frames() {
                lemma_replaced_top_owns(s0, f1, self.id);
            }
            assert(s0.drop_last().push(f1).drop_last() =~= s0.drop_last());
        }
        match x {
            Ok(StepOk::Done) => {
                let ghost s1 = self.stack@;
                let c = self.complete();
                proof {
                    lemma_completed_less_work(s1, self.stack@, c);
                }
                c
            },
            other => other,
        }
    }
}

impl<A: Execute> Intention<A> {
    /// Finishes a step of the top frame that ran an action, given how it went.
    pub fn finish_action(&mut self, result: ExecuteResult<Action<A>>, actions: &mut Vec<(Option<IntentionId>, PendingAction<A>)>) -> (r: Result<StepOk, StepError>)
        requires
            old(self).stack@.len() > 0,
        ensures
            intention_action_finished(*old(self), *final(self), old(actions)@, final(actions)@, result, r),
            final(self).id == old(self).id,
            old(self).owns_frames() ==> final(self).owns_frames(),
            old(self).owns_frames() ==> dispatched_by(old(actions)@, final(actions)@, old(self).id),
            frames_work(final(self).stack@) <= frames_work(old(self).stack@),
    {
        let ghost s0 = self.stack@;
        let mut frame = self.stack.pop().unwrap();
        assert(frame == s0.last());
        let ghost a0 = actions@;
        let x = frame.finish_action(result, actions);
        let ghost f1 = frame;
        proof {
            assert(a0.take(a0.len() as int) =~= a0);
            if old(self).owns_frames() {
                assert(s0[s0.len() - 1].intention_id == self.id);
            }
        }
        self.stack.push(frame);
        assert(self.stack@ == s0.drop_last().push(f1));
        proof {
            if old(self).owns_frames() {
                lemma_replaced_top_owns(s0, f1, self.id);
            }
            assert(s0.drop_last().push(f1).drop_last() =~= s0.drop_last());
        }
        match x {
            Ok(StepOk::Done) => {
                let ghost s1 = self.stack@;
                let c = self.complete();
                proof {
                    lemma_completed_less_work(s1, self.stack@, c);
                }
                c
            },
            other => other,
        }
    }
}

/// The work left on a stack: each frame counts its formulas still to run, and itself.
pub open spec fn frames_work<A>(s: Seq<Frame<A>>) -> nat
    decreases s.len(),
{
    if s.len() == 0 {
        0
    } else {
        frames_work(s.drop_last()) + s.last().remaining@.len() + 1
    }
}

/// Completing the top frame leaves less work.
proof fn lemma_completed_less_work<A>(s0: Seq<Frame<A>>, s1: Seq<Frame<A>>, r: Result<StepOk, StepError>)
    requires
        s0.len() > 0,
        completed(s0, s1, r),
    ensures
        frames_work(s1) < frames_work(s0),
{
    let n = s0.len() as int;
    if n <= 1 {
        assert(s1.len() == 0);
    } else {
        assert(s0.drop_last().drop_last() =~= s0.take(n - 2));
        assert(s0.drop_last().last() == s0[n - 2]);
        assert(s1.drop_last() =~= s1.take(n - 2));
        assert(frames_work(s0.drop_last()) == frames_work(s0.take(n - 2)) + s0[n - 2].remaining@.len() + 1);
    }
}

/// A step of a frame raises at most one event, on behalf of the frame's intention.
proof fn lemma_frame_step_raises<A>(
    f0: Frame<A>,
    f1: Frame<A>,
    c0: Set<KnowledgeModel>,
    c1: Set<KnowledgeModel>,
    e0: Seq<(EventSource, TriggeringEvent)>,
    e1: Seq<(EventSource, TriggeringEvent)>,
    r: FrameStep<A>,
)
    requires
        frame_stepped(f0, f1, c0, c1, e0, e1, r),
    ensures
        raised_by(e0, e1, f0.intention_id),
{
    assert(e0.take(e0.len() as int) =~= e0);
}

/// A stack whose frames all belong to `id` still does once its top frame is replaced by
/// one that keeps the owner.
proof fn lemma_replaced_top_owns<A>(s0: Seq<Frame<A>>, f1: Frame<A>, id: IntentionId)
    requires
        s0.len() > 0,
        forall|j: int| 0 <= j < s0.len() ==> (#[trigger] s0[j]).intention_id == id,
        f1.intention_id == s0.last().intention_id,
    ensures
        forall|j: int| 0 <= j < s0.len() ==> (#[trigger] s0.drop_last().push(f1)[j]).intention_id == id,
{
    assert forall|j: int| 0 <= j < s0.len() implies (#[trigger] s0.drop_last().push(f1)[j]).intention_id == id by {
        if j < s0.len() - 1 {
            assert(s0.drop_last().push(f1)[j] == s0[j]);
        }
    }
}

/// Completing the top frame of a stack whose frames all belong to `id` leaves frames that
/// all do.
proof fn lemma_completed_owns<A>(s0: Seq<Frame<A>>, s1: Seq<Frame<A>>, id: IntentionId)
    requires
        s0.len() >= 2,
        forall|j: int| 0 <= j < s0.len() ==> (#[trigger] s0[j]).intention_id == id,
        s1.len() == s0.len() - 1,
        s1.take(s0.len() - 2) == s0.take(s0.len() - 2),
        s1.last().intention_id == s0[s0.len() - 2].intention_id,
    ensures
        forall|j: int| 0 <= j < s1.len() ==> (#[trigger] s1[j]).intention_id == id,
{
    assert forall|j: int| 0 <= j < s1.len() implies (#[trigger] s1[j]).intention_id == id by {
        if j < s0.len() - 2 {
            assert(s1[j] == s1.take(s0.len() - 2)[j]);
            assert(s0[j] == s0.take(s0.len() - 2)[j]);
        }
    }
}

} // verus!
