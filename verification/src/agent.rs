//! A BDI agent and its reasoning cycle: what it believes, the plans it knows, the
//! intentions it pursues, and the events and actions it has yet to deal with.

use vstd::prelude::*;

pub mod accounting;

use crate::bindings::Bindings;
use crate::context::{budgeted, default_budget, PureContext, TickBudget};
use crate::event::{
    message_event, message_event_model, swap_remove_front, EventQueue, EventSelector, EventSource, FirstEvent, GoalKind, Trigger,
    TriggeringEvent,
};
use crate::intention::frame::{after_top, dispatched_by, frame_stepped, frames_work, intention_stepped, raised_by, same_bindings};
use crate::intention::{
    queue_stepped, without_event_block, Frame, FrameStep, Intention, IntentionId, IntentionQueue, PendingAction, Random, Scheduler, StepError, StepOk,
};
use crate::knowledge::answers::{unification_sides, Evaluate};
use crate::knowledge::query::FormulaModel;
use crate::knowledge::{Knowledge, KnowledgeBase, KnowledgeModel};
use crate::literal::Literal;
use crate::term::LiteralModel;
use crate::plan::library::{applies, surely_applies};
use crate::plan::action::{executed, goals_for, sound_answers};
use crate::plan::{Plan, 
    forall_goals, same_formula, Action, BuiltinAction, Effect, Execute, ExecuteResult, FirstApplicable, Formula, PlanLibrary, PlanSelector,
};
use self::accounting::{
    action_awaited, action_holders, blocks_accounted, event_sources, events_awaited, lemma_holders_drop_first, lemma_holders_push,
    lemma_occurrences_concat, lemma_occurrences_single, lemma_occurrences_swap_remove_front, lemma_sources_push,
    lemma_sources_swap_remove_front, occurrences,
};

verus! {

broadcast use vstd::std_specs::vec::group_vec_axioms;

/// A BDI agent: what it believes, the plans it knows, the intentions it pursues, the
/// events and actions it has yet to deal with, and the state its own actions work on.
#[derive(Debug)]
pub struct BdiAgent<State, A, Sched, Sel, PSel> {
    /// Its name.
    pub name: PureContext,
    /// What its own actions work on.
    pub state: State,
    pub beliefs: KnowledgeBase,
    pub plans: PlanLibrary<A>,
    /// Chooses among the applicable plans for an event.
    pub plan_selector: PSel,
    pub intentions: IntentionQueue<A, Sched>,
    /// The actions that have more to do, each with the intention it holds, if any.
    pub pending_actions: Vec<(Option<IntentionId>, PendingAction<A>)>,
    pub event_queue: EventQueue<Sel>,
    pub tick_budget: TickBudget,
    /// How many rules deep queries are answered.
    pub depth: u64,
}

/// The intentions `s1` are `s0` with one more frame on intention `id`, which holds a copy
/// of the body (its last formula on top) run under the bindings `b` for the event.
pub open spec fn pushed_frame<A: Clone>(
    s0: Map<IntentionId, Intention<A>>,
    s1: Map<IntentionId, Intention<A>>,
    id: IntentionId,
    body: Seq<Formula<A>>,
    b: Bindings,
    event: TriggeringEvent,
) -> bool {
    &&& s1.dom() == s0.dom().insert(id)
    &&& forall|k: IntentionId| k != id && #[trigger] s0.contains_key(k) ==> s1[k] == s0[k]
    &&& s1[id].stack@.drop_last() == if s0.contains_key(id) { s0[id].stack@ } else { Seq::empty() }
    &&& s1[id].stack@.last().intention_id == id
    &&& s1[id].stack@.last().event@ == event@
    &&& same_bindings(b, s1[id].stack@.last().bindings)
    &&& s1[id].stack@.last().remaining@.len() == body.len()
    &&& forall|j: int| 0 <= j < body.len() ==> same_formula(body[body.len() - 1 - j], #[trigger] s1[id].stack@.last().remaining@[j])
}

/// What the beliefs become for an event: a belief event (one with no goal) adds or
/// removes its literal.
pub open spec fn believed(c: Set<KnowledgeModel>, event: TriggeringEvent) -> Set<KnowledgeModel> {
    let k = (event.event@, None::<FormulaModel>);
    if event.goal is None {
        if event.trigger == Trigger::Addition { c.insert(k) } else { c.remove(k) }
    } else {
        c
    }
}

/// A copy of each formula of the body.
fn clone_body<A: Clone>(body: &Vec<Formula<A>>) -> (r: Vec<Formula<A>>)
    ensures
        r@.len() == body@.len(),
        forall|j: int| 0 <= j < body@.len() ==> same_formula(body@[j], #[trigger] r@[j]),
{
    let mut out: Vec<Formula<A>> = Vec::new();
    let mut i: usize = 0;
    while i < body.len()
        invariant
            i <= body@.len(),
            out@.len() == i,
            forall|j: int| 0 <= j < i ==> same_formula(body@[j], #[trigger] out@[j]),
        decreases body@.len() - i,
    {
        out.push(body[i].clone());
        i += 1;
    }
    out
}

/// What handling the event did to the intentions: nothing, or a plan that applies to
/// the event (with the beliefs `kb`) was pushed as a new frame on the intention that raised
/// it (`Internal`), or on a new intention (`External`).
pub open spec fn taken_up<A: Clone>(
    s0: Map<IntentionId, Intention<A>>,
    n0: usize,
    s1: Map<IntentionId, Intention<A>>,
    n1: usize,
    plans: Seq<Plan<A>>,
    kb: Set<KnowledgeModel>,
    event: TriggeringEvent,
    source: EventSource,
) -> bool {
    let id = match source { EventSource::Internal(i) => i, EventSource::External => n0 };
    ||| s1 == s0 && n1 == n0
    ||| exists|i: int, b: Bindings| {
        &&& #[trigger] applies(plans, i, b, event, kb)
        &&& pushed_frame(s0, s1, id, plans[i].body@, b, event)
        &&& n1 == if source is External { (n0 + 1) as usize } else { n0 }
    }
}

impl<State, A: Clone, Sched, Sel, PSel: PlanSelector<A>> BdiAgent<State, A, Sched, Sel, PSel> {
    /// Its beliefs hold nothing twice, and its intentions are in order.
    pub open spec fn wf(&self) -> bool {
        self.beliefs.wf() && self.intentions.wf()
    }

    /// It is in order, and each intention is blocked exactly on the queued events it raised
    /// and the pending action it holds.
    pub open spec fn consistent(&self) -> bool {
        &&& self.wf()
        &&& blocks_accounted(self.intentions.blocks(), self.event_queue.events(), self.pending_actions@)
    }

    /// Handles an event: one an intention raised no longer holds it; a belief event updates
    /// the beliefs; then the plan chosen for the event, if any, runs on top of the intention
    /// that raised the event, or as a new intention.
    pub fn handle_event<E: Evaluate>(&mut self, event: TriggeringEvent, source: EventSource, eval: &E)
        requires
            old(self).wf(),
            old(self).intentions.next() < usize::MAX,
            source matches EventSource::Internal(i) ==> old(self).intentions.blocks().contains_key(i)
                && old(self).intentions.blocks()[i].pending_events > 0,
        ensures
            final(self).wf(),
            final(self).intentions.blocks() == match source {
                EventSource::Internal(i) => without_event_block(old(self).intentions.blocks(), i),
                EventSource::External => old(self).intentions.blocks(),
            },
            final(self).beliefs.contents() == believed(old(self).beliefs.contents(), event),
            final(self).plans.plans() == old(self).plans.plans(),
            final(self).pending_actions@ == old(self).pending_actions@,
            final(self).event_queue.events() == old(self).event_queue.events(),
            final(self).depth == old(self).depth,
            final(self).name == old(self).name,
            final(self).tick_budget == old(self).tick_budget,
            final(self).state == old(self).state,
            taken_up(old(self).intentions.stacks(), old(self).intentions.next(), final(self).intentions.stacks(), final(self).intentions.next(),
                old(self).plans.plans(), final(self).beliefs.contents(), event, source),
            PSel::accepts_every_plan() ==> forall|j: int| #[trigger] surely_applies(old(self).plans.plans(), j, event, final(self).beliefs.contents())
                ==> exists|i: int, b: Bindings| {
                    &&& i <= j
                    &&& #[trigger] applies(old(self).plans.plans(), i, b, event, final(self).beliefs.contents())
                    &&& pushed_frame(old(self).intentions.stacks(), final(self).intentions.stacks(),
                        match source { EventSource::Internal(x) => x, EventSource::External => old(self).intentions.next() },
                        old(self).plans.plans()[i].body@, b, event)
                },
    {
        if let EventSource::Internal(i) = source {
            self.intentions.unblock_event(i);
        }
        if event.goal.is_none() {
            let belief = event.event.clone();
            match event.trigger {
                Trigger::Addition => {
                    self.beliefs.assert_no_event(Knowledge::from_belief(belief));
                },
                Trigger::Deletion => {
                    self.beliefs.remove_no_event(&Knowledge::from_belief(belief));
                },
            }
        }
        let (i, bindings) = match self.plans.select(&event, &mut self.plan_selector, &self.beliefs, self.depth, eval) {
            Some(found) => found,
            None => {
                return;
            },
        };
        let body = clone_body(self.plan_body(i));
        let existing = match source {
            EventSource::Internal(id) => Some(id),
            EventSource::External => None,
        };
        let ghost b = bindings;
        let ghost s0 = self.intentions.stacks();
        let id = self.intentions.push(body, bindings, existing, event.clone());
        proof {
            assert(applies(old(self).plans.plans(), i as int, b, event, self.beliefs.contents()));
            assert(pushed_frame(s0, self.intentions.stacks(), id, old(self).plans.plans()[i as int].body@, b, event));
        }
    }

    /// The body of the `i`-th plan.
    fn plan_body(&self, i: usize) -> (r: &Vec<Formula<A>>)
        requires
            i < self.plans.plans().len(),
        ensures
            r@ == self.plans.plans()[i as int].body@,
    {
        &self.plans.plan(i).body
    }

    /// Handles a message with a literal: a request raises the literal as a goal to
    /// achieve; any other message adds the belief `message(performative, literal)`.
    pub fn handle_message<E: Evaluate>(&mut self, is_request: bool, performative: &str, literal: Literal, eval: &E)
        requires
            old(self).wf(),
            old(self).intentions.next() < usize::MAX,
        ensures
            final(self).wf(),
            final(self).intentions.blocks() == old(self).intentions.blocks(),
            final(self).beliefs.contents() == if is_request {
                old(self).beliefs.contents()
            } else {
                old(self).beliefs.contents().insert((message_event_model(is_request, performative@, literal@).1, None::<FormulaModel>))
            },
            final(self).plans.plans() == old(self).plans.plans(),
            final(self).pending_actions@ == old(self).pending_actions@,
            final(self).event_queue.events() == old(self).event_queue.events(),
            final(self).depth == old(self).depth,
            final(self).name == old(self).name,
            final(self).tick_budget == old(self).tick_budget,
            final(self).state == old(self).state,
            old(self).consistent() ==> final(self).consistent(),
            exists|event: TriggeringEvent| #![trigger event@] {
                &&& event@ == message_event_model(is_request, performative@, literal@)
                &&& taken_up(old(self).intentions.stacks(), old(self).intentions.next(), final(self).intentions.stacks(), final(self).intentions.next(),
                    old(self).plans.plans(), final(self).beliefs.contents(), event, EventSource::External)
                &&& PSel::accepts_every_plan() ==> forall|j: int| #[trigger] surely_applies(old(self).plans.plans(), j, event, final(self).beliefs.contents())
                    ==> exists|i: int, b: Bindings| {
                        &&& i <= j
                        &&& #[trigger] applies(old(self).plans.plans(), i, b, event, final(self).beliefs.contents())
                        &&& pushed_frame(old(self).intentions.stacks(), final(self).intentions.stacks(), old(self).intentions.next(),
                            old(self).plans.plans()[i].body@, b, event)
                    }
            },
    {
        let event = message_event(is_request, performative, literal);
        let ghost ev = event;
        self.handle_event(event, EventSource::External, eval);
        assert(ev@ == message_event_model(is_request, performative@, literal@));
    }
}

impl<State, A: Clone> BdiAgent<State, A, Random, FirstEvent, FirstApplicable> {
    /// An agent with the given name, state, beliefs (none without them) and plans, that
    /// has handled each initial goal as an event from outside, a goal to achieve. It steps
    /// intentions in random order, handles events first come first served, selects the first
    /// applicable plan, answers queries `depth` rules deep and ticks on the default budget.
    pub fn new<E: Evaluate>(
        name: String,
        state: State,
        beliefs: Option<KnowledgeBase>,
        plans: PlanLibrary<A>,
        initial_goals: Vec<Literal>,
        depth: u64,
        eval: &E,
    ) -> (r: Self)
        requires
            beliefs matches Some(b) ==> b.wf(),
        ensures
            r.wf(),
            r.consistent(),
            r.event_queue.events().len() == 0,
            r.name.agent_name@ == name@,
            r.state == state,
            r.plans.plans() == plans.plans(),
            r.pending_actions@.len() == 0,
            r.tick_budget == default_budget(),
            r.depth == depth,
            r.intentions.blocks() == Map::<IntentionId, crate::intention::BlockReasons>::empty(),
    {
        let beliefs = match beliefs {
            Some(b) => b,
            None => KnowledgeBase::new(),
        };
        let mut agent = BdiAgent {
            name: PureContext::new(name),
            state,
            beliefs,
            plans,
            plan_selector: FirstApplicable,
            intentions: IntentionQueue::new(Random::default()),
            pending_actions: Vec::new(),
            event_queue: EventQueue::new(FirstEvent),
            tick_budget: TickBudget::default(),
            depth,
        };
        let mut i: usize = 0;
        let n = initial_goals.len();
        while i < n
            invariant
                agent.wf(),
                n == initial_goals@.len(),
                i <= n,
                agent.intentions.next() <= i,
                agent.name.agent_name@ == name@,
                agent.state == state,
                agent.tick_budget == default_budget(),
                agent.plans.plans() == plans.plans(),
                agent.pending_actions@.len() == 0,
                agent.depth == depth,
                agent.intentions.blocks() == Map::<IntentionId, crate::intention::BlockReasons>::empty(),
                agent.event_queue.events().len() == 0,
            decreases n - i,
        {
            let g = initial_goals[i].clone();
            agent.handle_event(TriggeringEvent { trigger: Trigger::Addition, event: g, goal: Some(GoalKind::Achieve) }, EventSource::External, eval);
            i += 1;
        }
        proof {
            assert(event_sources(agent.event_queue.events()) =~= Seq::<EventSource>::empty());
            assert(action_holders(agent.pending_actions@) =~= Seq::<Option<IntentionId>>::empty());
            assert(occurrences(Seq::<EventSource>::empty(), EventSource::External) == 0);
            assert forall|x: IntentionId| #[trigger] events_awaited(agent.intentions.blocks(), x) == occurrences(event_sources(agent.event_queue.events()), EventSource::Internal(x)) by {
                assert(occurrences(Seq::<EventSource>::empty(), EventSource::Internal(x)) == 0);
            }
            assert forall|x: IntentionId| #[trigger] occurrences(action_holders(agent.pending_actions@), Some(x)) <= 1 by {
                assert(occurrences(Seq::<Option<IntentionId>>::empty(), Some(x)) == 0);
            }
            assert forall|x: IntentionId| #[trigger] action_awaited(agent.intentions.blocks(), x) == (occurrences(action_holders(agent.pending_actions@), Some(x)) == 1) by {
                assert(occurrences(Seq::<Option<IntentionId>>::empty(), Some(x)) == 0);
            }
        }
        agent
    }
}

impl<State, A: Clone, Sched, Sel, PSel: PlanSelector<A>> BdiAgent<State, A, Sched, Sel, PSel> {
    /// The agent with the given limits on what one tick does.
    pub fn with_tick_budget(self, budget: TickBudget) -> (r: Self)
        ensures
            r == (BdiAgent { tick_budget: budget, ..self }),
            self.consistent() ==> r.consistent(),
    {
        BdiAgent { tick_budget: budget, ..self }
    }

    /// The agent with another scheduler of its intentions.
    pub fn with_intention_scheduler<NewSched>(self, scheduler: NewSched) -> (r: BdiAgent<State, A, NewSched, Sel, PSel>)
        ensures
            r.intentions.stacks() == self.intentions.stacks(),
            r.intentions.blocks() == self.intentions.blocks(),
            r.intentions.next() == self.intentions.next(),
            r.name == self.name,
            r.state == self.state,
            r.beliefs == self.beliefs,
            r.plans == self.plans,
            r.plan_selector == self.plan_selector,
            r.pending_actions == self.pending_actions,
            r.event_queue == self.event_queue,
            r.tick_budget == self.tick_budget,
            r.depth == self.depth,
            self.consistent() ==> r.consistent(),
    {
        BdiAgent {
            name: self.name,
            state: self.state,
            beliefs: self.beliefs,
            plans: self.plans,
            plan_selector: self.plan_selector,
            intentions: self.intentions.with_scheduler(scheduler),
            pending_actions: self.pending_actions,
            event_queue: self.event_queue,
            tick_budget: self.tick_budget,
            depth: self.depth,
        }
    }

    /// The agent with another selector of the event it handles next.
    pub fn with_event_selector<NewSel>(self, selector: NewSel) -> (r: BdiAgent<State, A, Sched, NewSel, PSel>)
        ensures
            r.event_queue.events() == self.event_queue.events(),
            r.name == self.name,
            r.state == self.state,
            r.beliefs == self.beliefs,
            r.plans == self.plans,
            r.plan_selector == self.plan_selector,
            r.intentions == self.intentions,
            r.pending_actions == self.pending_actions,
            r.tick_budget == self.tick_budget,
            r.depth == self.depth,
            self.consistent() ==> r.consistent(),
    {
        BdiAgent {
            name: self.name,
            state: self.state,
            beliefs: self.beliefs,
            plans: self.plans,
            plan_selector: self.plan_selector,
            intentions: self.intentions,
            pending_actions: self.pending_actions,
            event_queue: self.event_queue.with_event_selector(selector),
            tick_budget: self.tick_budget,
            depth: self.depth,
        }
    }

    /// The agent with another selector of the plan for an event.
    pub fn with_plan_selector<NewPSel: PlanSelector<A>>(self, selector: NewPSel) -> (r: BdiAgent<State, A, Sched, Sel, NewPSel>)
        ensures
            r.plan_selector == selector,
            r.name == self.name,
            r.state == self.state,
            r.beliefs == self.beliefs,
            r.plans == self.plans,
            r.intentions == self.intentions,
            r.pending_actions == self.pending_actions,
            r.event_queue == self.event_queue,
            r.tick_budget == self.tick_budget,
            r.depth == self.depth,
            self.consistent() ==> r.consistent(),
    {
        BdiAgent {
            name: self.name,
            state: self.state,
            beliefs: self.beliefs,
            plans: self.plans,
            plan_selector: selector,
            intentions: self.intentions,
            pending_actions: self.pending_actions,
            event_queue: self.event_queue,
            tick_budget: self.tick_budget,
            depth: self.depth,
        }
    }
}

/// An intention of a consistent agent may be stepped exactly when none of the events it
/// raised waits in the queue and it holds no pending action.
pub proof fn lemma_runnable_iff_nothing_outstanding<State, A: Clone, Sched, Sel, PSel: PlanSelector<A>>(
    agent: BdiAgent<State, A, Sched, Sel, PSel>,
    id: IntentionId,
)
    requires
        agent.consistent(),
        agent.intentions.intentions().contains_key(id),
    ensures
        agent.intentions.runnable(id) <==> {
            &&& occurrences(event_sources(agent.event_queue.events()), EventSource::Internal(id)) == 0
            &&& occurrences(action_holders(agent.pending_actions@), Some(id)) == 0
        },
{
    let b = agent.intentions.blocks();
    assert(events_awaited(b, id) == occurrences(event_sources(agent.event_queue.events()), EventSource::Internal(id)));
    assert(action_awaited(b, id) == (occurrences(action_holders(agent.pending_actions@), Some(id)) == 1));
    assert(occurrences(action_holders(agent.pending_actions@), Some(id)) <= 1);
    if b.contains_key(id) {
        assert(b[id].blocked());
    }
}

/// How many pending actions one tick polls again: as many as the limit allows (all
/// without one).
pub open spec fn polled_count(limit: Option<usize>, available: nat) -> int {
    match limit {
        Some(m) => if (m as nat) < available { m as int } else { available as int },
        None => available as int,
    }
}

/// `kept` are entries of `a0` among its first `n`, in their order, each with the holder
/// and the bindings it had there; `from` says where each came from.
pub open spec fn kept_from<A>(
    a0: Seq<(Option<IntentionId>, PendingAction<A>)>,
    kept: Seq<(Option<IntentionId>, PendingAction<A>)>,
    from: Seq<int>,
    n: int,
) -> bool {
    &&& kept.len() == from.len()
    &&& forall|k: int| 0 <= k < from.len() ==> 0 <= #[trigger] from[k] < n
    &&& forall|k: int, l: int| 0 <= k < l < from.len() ==> from[k] < from[l]
    &&& forall|k: int| 0 <= k < kept.len() ==> (#[trigger] kept[k]).0 == a0[from[k]].0 && kept[k].1.bindings == a0[from[k]].1.bindings
}

proof fn lemma_kept_from_push<A>(
    a0: Seq<(Option<IntentionId>, PendingAction<A>)>,
    kept: Seq<(Option<IntentionId>, PendingAction<A>)>,
    from: Seq<int>,
    i: int,
    entry: (Option<IntentionId>, PendingAction<A>),
)
    requires
        kept_from(a0, kept, from, i),
        0 <= i < a0.len(),
        entry.0 == a0[i].0,
        entry.1.bindings == a0[i].1.bindings,
    ensures
        kept_from(a0, kept.push(entry), from.push(i), i + 1),
{
    let k2 = kept.push(entry);
    let f2 = from.push(i);
    assert forall|k: int| 0 <= k < f2.len() implies 0 <= #[trigger] f2[k] < i + 1 by {
        if k < from.len() {
            assert(f2[k] == from[k]);
        }
    }
    assert forall|k: int, l: int| 0 <= k < l < f2.len() implies f2[k] < f2[l] by {
        assert(f2[k] == from[k]);
        if l < from.len() {
            assert(f2[l] == from[l]);
        }
    }
    assert forall|k: int| 0 <= k < k2.len() implies (#[trigger] k2[k]).0 == a0[f2[k]].0 && k2[k].1.bindings == a0[f2[k]].1.bindings by {
        if k < kept.len() {
            assert(k2[k] == kept[k]);
            assert(f2[k] == from[k]);
        }
    }
}

proof fn lemma_kept_from_widen<A>(
    a0: Seq<(Option<IntentionId>, PendingAction<A>)>,
    kept: Seq<(Option<IntentionId>, PendingAction<A>)>,
    from: Seq<int>,
    i: int,
)
    requires
        kept_from(a0, kept, from, i),
    ensures
        kept_from(a0, kept, from, i + 1),
{
    assert forall|k: int| 0 <= k < from.len() implies 0 <= #[trigger] from[k] < i + 1 by {}
}

/// The result of a built-in action, as the result of the action that runs it.
pub open spec fn lifted<A>(x: ExecuteResult<BuiltinAction>, r: ExecuteResult<Action<A>>) -> bool {
    match x {
        ExecuteResult::Pending(b) => r == ExecuteResult::<Action<A>>::Pending(Action::Builtin(b)),
        ExecuteResult::Done(found) => r matches ExecuteResult::Done(g) && g == found,
    }
}

/// What the effect of a built-in action adds to the effects the agent carries out: none
/// when it asks for nothing or raises goals, else the effect itself.
pub open spec fn asked(e: Effect) -> Seq<Effect> {
    if e is Nothing || e is Forall { Seq::empty() } else { seq![e] }
}

/// The action the top frame of the intention runs next, with the frame's bindings, if its
/// next formula is an action.
pub open spec fn top_action<A>(s: Map<IntentionId, Intention<A>>, id: IntentionId) -> Option<(Action<A>, Bindings)> {
    if s.contains_key(id) && s[id].stack@.len() > 0 && s[id].stack@.last().remaining@.len() > 0 {
        match s[id].stack@.last().remaining@.last() {
            Formula::Action(a) => Some((a, s[id].stack@.last().bindings)),
            _ => None,
        }
    } else {
        None
    }
}

/// The effects stepping the intention adds, at monotonic time `now` as the agent `aid`:
/// what running the built-in action its top frame runs next asks for, and else none.
pub open spec fn step_effects<A>(s: Map<IntentionId, Intention<A>>, id: IntentionId, now: u64, now_bits: u32, aid: Seq<char>, added: Seq<Effect>) -> bool {
    match top_action(s, id) {
        Some((Action::Builtin(b), bindings)) => exists|x: (ExecuteResult<BuiltinAction>, Effect), e1: Seq<TriggeringEvent>|
            #[trigger] executed(b, bindings, now, now_bits, aid, Seq::empty(), e1, x) && added == asked(x.1),
        _ => added.len() == 0,
    }
}

/// A step of an intention whose top frame runs an action next is that action's run, under
/// the frame's bindings, and leaves the frame on top.
proof fn lemma_top_action_runs<A>(
    s0: Map<IntentionId, Intention<A>>,
    s1: Map<IntentionId, Intention<A>>,
    id: IntentionId,
    c0: Set<KnowledgeModel>,
    c1: Set<KnowledgeModel>,
    e1: Seq<(EventSource, TriggeringEvent)>,
    st: FrameStep<A>,
)
    requires
        s0.contains_key(id),
        queue_stepped(s0, s1, id, c0, c1, Seq::empty(), e1, st),
    ensures
        top_action(s0, id) matches Some((a, b)) ==> st == FrameStep::<A>::Run(a) && s1.contains_key(id) && s1[id].stack@.len() > 0
            && same_bindings(b, s1[id].stack@.last().bindings),
{
    if let Some((a, b)) = top_action(s0, id) {
        let i0 = s0[id];
        let i1 = choose|i1: Intention<A>|
            #[trigger] intention_stepped(i0, i1, c0, c1, Seq::empty(), e1, st)
            && s1 == if st == FrameStep::<A>::Stepped(Ok(StepOk::Done)) { s0.remove(id) } else { s0.insert(id, i1) };
        let (f1, r0) = choose|f1: Frame<A>, r0: FrameStep<A>|
            #[trigger] frame_stepped(i0.stack@.last(), f1, c0, c1, Seq::empty(), e1, r0) && match r0 {
                FrameStep::Stepped(x) => st matches FrameStep::Stepped(y) && after_top(i0.stack@, f1, x, i1.stack@, y),
                _ => i1.stack@ == i0.stack@.drop_last().push(f1) && st == r0,
            };
        assert(r0 == FrameStep::<A>::Run(a));
        assert(i1.stack@.last() == f1);
    }
}

/// Running a built-in action depends on the bindings through what they give each variable.
proof fn lemma_executed_by_lookup(
    a: BuiltinAction,
    b1: Bindings,
    b2: Bindings,
    now: u64,
    now_bits: u32,
    aid: Seq<char>,
    e0: Seq<TriggeringEvent>,
    e1: Seq<TriggeringEvent>,
    r: (ExecuteResult<BuiltinAction>, Effect),
)
    requires
        b1.lookup() == b2.lookup(),
    ensures
        executed(a, b1, now, now_bits, aid, e0, e1, r) == executed(a, b2, now, now_bits, aid, e0, e1, r),
{
}

/// The effects one run of a built-in action adds: the effect it asks for, unless it asks
/// for nothing or raises goals, and then a logged error when it hands back bindings.
pub open spec fn carried(x: (ExecuteResult<BuiltinAction>, Effect), added: Seq<Effect>) -> bool {
    let asked = asked(x.1);
    if x.0 matches ExecuteResult::Done(Some(_)) {
        &&& added.len() == asked.len() + 1
        &&& added.take(asked.len() as int) == asked
        &&& added.last() is LogError
    } else {
        added == asked
    }
}

/// The effects polling the pending action once adds, at monotonic time `now` as the agent
/// `aid`: those of its run for a built-in action; for one of the agent's own, at most a
/// logged error, when it hands back bindings.
pub open spec fn poll_effects<A>(entry: PendingAction<A>, now: u64, now_bits: u32, aid: Seq<char>, added: Seq<Effect>) -> bool {
    match entry.action {
        Action::User(_) => added.len() == 0 || (added.len() == 1 && added[0] is LogError),
        Action::Builtin(b) => exists|x: (ExecuteResult<BuiltinAction>, Effect), e1: Seq<TriggeringEvent>|
            #[trigger] executed(b, entry.bindings, now, now_bits, aid, Seq::empty(), e1, x) && carried(x, added),
    }
}

/// Runs the action once under the bindings: a built-in one at monotonic time `now`
/// (milliseconds; `now_bits` the same as the bits of an `f32`) as the agent `aid`; one of
/// the agent's own on the beliefs and `state`. The goals `.at` and `.forall` raise are
/// pushed to `goals` (queries answered `depth` deep, arithmetic by `eval`); what else a
/// built-in action asks of the agent is pushed to `effects`.
fn run_action<A: Execute, E: Evaluate>(
    action: Action<A>,
    bindings: &Bindings,
    knowledge: &KnowledgeBase,
    depth: u64,
    now: u64,
    now_bits: u32,
    aid: &str,
    eval: &E,
    state: &mut A::State,
    goals: &mut Vec<TriggeringEvent>,
    effects: &mut Vec<Effect>,
) -> (r: ExecuteResult<Action<A>>)
    ensures
        r matches ExecuteResult::Pending(a) ==> (a is Builtin <==> action is Builtin),
        match action {
            Action::User(_) => final(goals)@ == old(goals)@ && final(effects)@ == old(effects)@,
            Action::Builtin(b) => exists|x: (ExecuteResult<BuiltinAction>, Effect), e1: Seq<TriggeringEvent>| {
                &&& #[trigger] executed(b, *bindings, now, now_bits, aid@, old(goals)@, e1, x)
                &&& lifted(x.0, r)
                &&& match x.1 {
                    Effect::Nothing => final(goals)@ == e1 && final(effects)@ == old(effects)@,
                    Effect::Forall { query, goal } => {
                        &&& final(effects)@ == old(effects)@
                        &&& final(goals)@.len() >= e1.len()
                        &&& final(goals)@.take(e1.len() as int) == e1
                        &&& exists|found: Seq<Bindings>| #[trigger] goals_for(final(goals)@.skip(e1.len() as int), found, goal)
                            && sound_answers(found, *bindings, query, knowledge.contents())
                    },
                    _ => final(goals)@ == e1 && final(effects)@ == old(effects)@.push(x.1),
                }
            },
        },
{
    match action {
        Action::User(a) => a.execute(bindings, knowledge, state).map(|p: A| -> (r: Action<A>)
            ensures
                r == Action::<A>::User(p),
            { Action::User(p) }),
        Action::Builtin(b) => {
            let ghost g0 = goals@;
            let (r, effect) = b.execute(bindings, now, now_bits, aid, goals);
            let ghost x = (r, effect);
            let ghost e1 = goals@;
            match effect {
                Effect::Nothing => {},
                Effect::Forall { query, goal } => {
                    let raised = forall_goals(&query, &goal, bindings, knowledge, depth, eval);
                    let mut i: usize = 0;
                    while i < raised.len()
                        invariant
                            i <= raised@.len(),
                            goals@.len() == e1.len() + i,
                            goals@.take(e1.len() as int) == e1,
                            forall|k: int| 0 <= k < i ==> (#[trigger] goals@[e1.len() + k])@ == raised@[k]@,
                        decreases raised@.len() - i,
                    {
                        let ghost before = goals@;
                        goals.push(raised[i].clone());
                        proof {
                            assert(goals@.take(e1.len() as int) =~= before.take(e1.len() as int));
                        }
                        i += 1;
                    }
                    proof {
                        let found = choose|found: Seq<Bindings>| #[trigger] goals_for(raised@, found, goal) && sound_answers(found, *bindings, query, knowledge.contents());
                        let tail = goals@.skip(e1.len() as int);
                        assert forall|k: int| 0 <= k < tail.len() implies (#[trigger] tail[k])@ == raised@[k]@ by {
                            assert(tail[k] == goals@[e1.len() + k]);
                        }
                        assert(goals_for(tail, found, goal));
                    }
                },
                other => {
                    effects.push(other);
                },
            }
            let out = r.map(|p: BuiltinAction| -> (r: Action<A>)
                ensures
                    r == Action::<A>::Builtin(p),
                { Action::Builtin(p) });
            proof {
                assert(executed(b, *bindings, now, now_bits, aid@, g0, e1, x));
            }
            out
        },
    }
}

impl<State, A: Clone, Sched, Sel, PSel: PlanSelector<A>> BdiAgent<State, A, Sched, Sel, PSel> {
    /// Queues the goals, each as an event from outside.
    fn queue_goals(&mut self, goals: Vec<TriggeringEvent>)
        requires
            old(self).consistent(),
        ensures
            final(self).consistent(),
            final(self).event_queue.events().len() == old(self).event_queue.events().len() + goals@.len(),
            final(self).event_queue.events().take(old(self).event_queue.events().len() as int) == old(self).event_queue.events(),
            forall|k: int| 0 <= k < goals@.len() ==> #[trigger] final(self).event_queue.events()[old(self).event_queue.events().len() + k] == (goals@[k]@, EventSource::External),
            final(self).beliefs == old(self).beliefs,
            final(self).plans == old(self).plans,
            final(self).intentions == old(self).intentions,
            final(self).pending_actions == old(self).pending_actions,
            final(self).depth == old(self).depth,
            final(self).name == old(self).name,
            final(self).tick_budget == old(self).tick_budget,
            final(self).state == old(self).state,
    {
        let mut goals = goals;
        let ghost all = goals@;
        let ghost e0 = self.event_queue.events();
        let mut i: usize = 0;
        while i < goals.len()
            invariant
                self.consistent(),
                goals@ == all,
                i <= all.len(),
                self.event_queue.events().len() == e0.len() + i,
                self.event_queue.events().take(e0.len() as int) == e0,
                forall|k: int| 0 <= k < i ==> #[trigger] self.event_queue.events()[e0.len() + k] == (all[k]@, EventSource::External),
                self.beliefs == old(self).beliefs,
                self.plans == old(self).plans,
                self.intentions == old(self).intentions,
                self.pending_actions == old(self).pending_actions,
                self.depth == old(self).depth,
                self.name == old(self).name,
                self.tick_budget == old(self).tick_budget,
                self.state == old(self).state,
            decreases all.len() - i,
        {
            let ghost e1 = self.event_queue.events();
            let g = goals[i].clone();
            self.event_queue.push(g, EventSource::External);
            proof {
                let e2 = self.event_queue.events();
                lemma_sources_push(e1, (g@, EventSource::External));
                assert forall|id: IntentionId| #[trigger] events_awaited(self.intentions.blocks(), id) == occurrences(event_sources(e2), EventSource::Internal(id)) by {
                    lemma_occurrences_concat(event_sources(e1), seq![EventSource::External], EventSource::Internal(id));
                    lemma_occurrences_single(EventSource::External, EventSource::Internal(id));
                }
                assert(e2.take(e0.len() as int) =~= e1.take(e0.len() as int));
            }
            i += 1;
        }
    }
}

impl<State, A: Clone, Sched, Sel, PSel: PlanSelector<A>> BdiAgent<State, A, Sched, Sel, PSel> {
    /// Files what a step of the runnable intention `id` left: the action it dispatched, if
    /// any, pending (the intention blocked on it when it holds it), and the event it raised,
    /// if any, queued (the intention blocked on it).
    fn file_step(&mut self, id: IntentionId, raised: Vec<(EventSource, TriggeringEvent)>, dispatched: Vec<(Option<IntentionId>, PendingAction<A>)>)
        requires
            old(self).consistent(),
            !old(self).intentions.blocks().contains_key(id),
            raised_by(Seq::empty(), raised@, id),
            dispatched_by(Seq::empty(), dispatched@, id),
        ensures
            final(self).consistent(),
            final(self).event_queue.events() == old(self).event_queue.events() + raised@.map_values(|e: (EventSource, TriggeringEvent)| (e.1@, e.0)),
            final(self).pending_actions@ == old(self).pending_actions@ + dispatched@,
            final(self).intentions.stacks() == old(self).intentions.stacks(),
            final(self).intentions.next() == old(self).intentions.next(),
            final(self).beliefs == old(self).beliefs,
            final(self).plans == old(self).plans,
            final(self).depth == old(self).depth,
            final(self).name == old(self).name,
            final(self).tick_budget == old(self).tick_budget,
            final(self).state == old(self).state,
    {
        let mut raised = raised;
        let mut dispatched = dispatched;
        let ghost r0 = raised@;
        let ghost d0 = dispatched@;
        let ghost e0 = self.event_queue.events();
        let ghost p0 = self.pending_actions@;
        let ghost b0 = self.intentions.blocks();
        if dispatched.len() > 0 {
            let (holder, pending) = dispatched.pop().unwrap();
            assert(d0 =~= seq![(holder, pending)]);
            proof {
                lemma_holders_push(p0, (holder, pending));
            }
            match holder {
                Some(k) => {
                    self.intentions.block_on_action(k);
                },
                None => {},
            }
            self.pending_actions.push((holder, pending));
            proof {
                let b1 = self.intentions.blocks();
                let p1 = self.pending_actions@;
                assert(p1 =~= p0 + d0);
                assert forall|x: IntentionId| #[trigger] events_awaited(b1, x) == occurrences(event_sources(e0), EventSource::Internal(x)) by {
                    assert(events_awaited(b0, x) == occurrences(event_sources(e0), EventSource::Internal(x)));
                }
                assert forall|x: IntentionId| #[trigger] occurrences(action_holders(p1), Some(x)) == occurrences(action_holders(p0), Some(x)) + (if holder == Some(x) { 1nat } else { 0nat }) by {
                    lemma_occurrences_concat(action_holders(p0), seq![holder], Some(x));
                    lemma_occurrences_single(holder, Some(x));
                }
                assert forall|x: IntentionId| #[trigger] action_awaited(b1, x) == (occurrences(action_holders(p1), Some(x)) == 1) by {
                    assert(action_awaited(b0, x) == (occurrences(action_holders(p0), Some(x)) == 1));
                    assert(occurrences(action_holders(p0), Some(x)) <= 1);
                }
                assert forall|x: IntentionId| #[trigger] occurrences(action_holders(p1), Some(x)) <= 1 by {
                    assert(action_awaited(b0, x) == (occurrences(action_holders(p0), Some(x)) == 1));
                    assert(occurrences(action_holders(p0), Some(x)) <= 1);
                }
            }
        } else {
            assert(self.pending_actions@ =~= p0 + d0);
        }
        let ghost b1 = self.intentions.blocks();
        let ghost p1 = self.pending_actions@;
        if raised.len() > 0 {
            let (source, event) = raised.pop().unwrap();
            assert(r0 =~= seq![(source, event)]);
            match source {
                EventSource::Internal(k) => {
                    self.intentions.block_on_event(k);
                },
                EventSource::External => {},
            }
            let ghost q = (event@, source);
            self.event_queue.push(event, source);
            proof {
                let b2 = self.intentions.blocks();
                let e1 = self.event_queue.events();
                lemma_sources_push(e0, q);
                assert(e1 =~= e0 + r0.map_values(|e: (EventSource, TriggeringEvent)| (e.1@, e.0)));
                assert forall|x: IntentionId| #[trigger] events_awaited(b2, x) == occurrences(event_sources(e1), EventSource::Internal(x)) by {
                    assert(events_awaited(b1, x) == occurrences(event_sources(e0), EventSource::Internal(x)));
                    lemma_occurrences_concat(event_sources(e0), seq![source], EventSource::Internal(x));
                    lemma_occurrences_single(source, EventSource::Internal(x));
                }
                assert forall|x: IntentionId| #[trigger] action_awaited(b2, x) == (occurrences(action_holders(p1), Some(x)) == 1) by {
                    assert(action_awaited(b1, x) == (occurrences(action_holders(p1), Some(x)) == 1));
                }
            }
        } else {
            assert(self.event_queue.events() =~= e0 + r0.map_values(|e: (EventSource, TriggeringEvent)| (e.1@, e.0)));
        }
    }
}

impl<State, A: Clone + Execute<State = State>, Sched, Sel, PSel: PlanSelector<A>> BdiAgent<State, A, Sched, Sel, PSel> {
    /// Polls the pending actions again, front to back, as many as the budget allows (all
    /// without a limit) and at most each once: one with more to do goes to the back; one
    /// that is done no longer blocks the intention that holds it. An action that runs over
    /// several ticks cannot hand back bindings: that is reported as an error effect. The
    /// goals the actions raise are queued as events from outside; their other effects are
    /// pushed to `effects`.
    pub fn run_pending_actions<E: Evaluate>(&mut self, now: u64, now_bits: u32, aid: &str, eval: &E, effects: &mut Vec<Effect>)
        requires
            old(self).consistent(),
        ensures
            final(self).consistent(),
            final(self).beliefs == old(self).beliefs,
            final(self).plans == old(self).plans,
            final(self).intentions.stacks() == old(self).intentions.stacks(),
            final(self).intentions.next() == old(self).intentions.next(),
            final(self).pending_actions@.len() <= old(self).pending_actions@.len(),
            final(self).event_queue.events().len() >= old(self).event_queue.events().len(),
            final(self).event_queue.events().take(old(self).event_queue.events().len() as int) == old(self).event_queue.events(),
            forall|k: int| old(self).event_queue.events().len() <= k < final(self).event_queue.events().len() ==> (#[trigger] final(self).event_queue.events()[k]).1 == EventSource::External,
            final(self).depth == old(self).depth,
            final(self).name == old(self).name,
            final(self).tick_budget == old(self).tick_budget,
            ({
                let a0 = old(self).pending_actions@;
                let n = polled_count(old(self).tick_budget.max_pending_actions, a0.len());
                exists|kept: Seq<(Option<IntentionId>, PendingAction<A>)>, from: Seq<int>|
                    #[trigger] kept_from(a0, kept, from, n) && final(self).pending_actions@ == a0.subrange(n, a0.len() as int) + kept
            }),
            ({
                let a0 = old(self).pending_actions@;
                let n = polled_count(old(self).tick_budget.max_pending_actions, a0.len());
                exists|trace: Seq<Seq<Effect>>| {
                    &&& trace.len() == n
                    &&& final(effects)@ == old(effects)@ + trace.flatten()
                    &&& forall|k: int| 0 <= k < n ==> #[trigger] poll_effects(a0[k].1, now, now_bits, aid@, trace[k])
                }
            }),
    {
        let n = budgeted(self.tick_budget.max_pending_actions, self.pending_actions.len());
        let ghost e_start = self.event_queue.events();
        let ghost a0 = self.pending_actions@;
        let ghost mut kept: Seq<(Option<IntentionId>, PendingAction<A>)> = Seq::empty();
        let ghost mut from: Seq<int> = Seq::empty();
        let ghost f0 = effects@;
        let ghost mut trace: Seq<Seq<Effect>> = Seq::empty();
        let mut i: usize = 0;
        proof {
            assert(a0.subrange(0, a0.len() as int) + kept =~= a0);
        }
        while i < n
            invariant
                self.consistent(),
                i <= n,
                n == polled_count(old(self).tick_budget.max_pending_actions, a0.len()),
                n <= a0.len(),
                a0 == old(self).pending_actions@,
                kept_from(a0, kept, from, i as int),
                self.pending_actions@ == a0.subrange(i as int, a0.len() as int) + kept,
                self.beliefs == old(self).beliefs,
                self.plans == old(self).plans,
                self.intentions.stacks() == old(self).intentions.stacks(),
                self.intentions.next() == old(self).intentions.next(),
                self.pending_actions@.len() <= old(self).pending_actions@.len(),
                e_start == old(self).event_queue.events(),
                self.event_queue.events().len() >= e_start.len(),
                self.event_queue.events().take(e_start.len() as int) == e_start,
                forall|k: int| e_start.len() <= k < self.event_queue.events().len() ==> (#[trigger] self.event_queue.events()[k]).1 == EventSource::External,
                self.depth == old(self).depth,
                self.name == old(self).name,
                self.tick_budget == old(self).tick_budget,
                f0 == old(effects)@,
                trace.len() == i,
                effects@ == f0 + trace.flatten(),
                forall|k: int| 0 <= k < i ==> #[trigger] poll_effects(a0[k].1, now, now_bits, aid@, trace[k]),
            ensures
                i == n,
            decreases n - i,
        {
            if self.pending_actions.len() == 0 {
                break;
            }
            let ghost p0 = self.pending_actions@;
            let ghost b0 = self.intentions.blocks();
            let ghost e0 = self.event_queue.events();
            let (holder, pending) = self.pending_actions.remove(0);
            proof {
                assert(p0[0] == a0[i as int]);
                assert(self.pending_actions@ =~= a0.subrange(i + 1, a0.len() as int) + kept);
                assert(self.pending_actions@ =~= p0.drop_first());
                lemma_holders_drop_first(p0);
                assert forall|x: IntentionId| #[trigger] occurrences(action_holders(p0), Some(x)) == occurrences(action_holders(p0.drop_first()), Some(x)) + (if holder == Some(x) { 1nat } else { 0nat }) by {
                    lemma_occurrences_concat(seq![holder], action_holders(p0.drop_first()), Some(x));
                    lemma_occurrences_single(holder, Some(x));
                }
            }
            let ghost entry0 = pending;
            let ghost ef0 = effects@;
            let PendingAction { action, bindings } = pending;
            let mut goals: Vec<TriggeringEvent> = Vec::new();
            let result = run_action(action, &bindings, &self.beliefs, self.depth, now, now_bits, aid, eval, &mut self.state, &mut goals, effects);
            let ghost r0 = result;
            let ghost ef1 = effects@;
            match result {
                ExecuteResult::Pending(action) => {
                    let ghost p1 = self.pending_actions@;
                    self.pending_actions.push((holder, PendingAction { action, bindings }));
                    proof {
                        let entry = (holder, PendingAction { action, bindings });
                        assert(a0[i as int].0 == holder && a0[i as int].1.bindings == bindings);
                        lemma_kept_from_push(a0, kept, from, i as int, entry);
                        kept = kept.push(entry);
                        from = from.push(i as int);
                        assert(self.pending_actions@ =~= a0.subrange(i + 1, a0.len() as int) + kept);
                        let p2 = self.pending_actions@;
                        lemma_holders_push(p1, (holder, PendingAction { action, bindings }));
                        assert forall|x: IntentionId| #[trigger] occurrences(action_holders(p2), Some(x)) == occurrences(action_holders(p0), Some(x)) by {
                            lemma_occurrences_concat(action_holders(p1), seq![holder], Some(x));
                            lemma_occurrences_single(holder, Some(x));
                        }
                        assert forall|x: IntentionId| #[trigger] action_awaited(b0, x) == (occurrences(action_holders(p2), Some(x)) == 1) by {
                            assert(action_awaited(b0, x) == (occurrences(action_holders(p0), Some(x)) == 1));
                        }
                        assert forall|x: IntentionId| #[trigger] occurrences(action_holders(p2), Some(x)) <= 1 by {
                            assert(occurrences(action_holders(p0), Some(x)) <= 1);
                        }
                    }
                },
                ExecuteResult::Done(found) => {
                    if found.is_some() {
                        effects.push(Effect::LogError("an action that runs over several ticks cannot hand back bindings"));
                    }
                    let ghost p1 = self.pending_actions@;
                    proof {
                        lemma_kept_from_widen(a0, kept, from, i as int);
                    }
                    match holder {
                        Some(k) => {
                            proof {
                                assert(occurrences(action_holders(p0), Some(k)) <= 1);
                                assert(action_awaited(b0, k) == (occurrences(action_holders(p0), Some(k)) == 1));
                            }
                            self.intentions.unblock_action(k);
                        },
                        None => {},
                    }
                    proof {
                        let b1 = self.intentions.blocks();
                        assert forall|x: IntentionId| #[trigger] events_awaited(b1, x) == occurrences(event_sources(e0), EventSource::Internal(x)) by {
                            assert(events_awaited(b0, x) == occurrences(event_sources(e0), EventSource::Internal(x)));
                        }
                        assert forall|x: IntentionId| #[trigger] action_awaited(b1, x) == (occurrences(action_holders(p1), Some(x)) == 1) by {
                            assert(action_awaited(b0, x) == (occurrences(action_holders(p0), Some(x)) == 1));
                            assert(occurrences(action_holders(p0), Some(x)) <= 1);
                        }
                        assert forall|x: IntentionId| #[trigger] occurrences(action_holders(p1), Some(x)) <= 1 by {
                            assert(occurrences(action_holders(p0), Some(x)) <= 1);
                        }
                    }
                },
            }
            proof {
                let added = effects@.skip(ef0.len() as int);
                assert(effects@ =~= ef0 + added);
                assert(a0[i as int].1 == entry0);
                if r0 matches ExecuteResult::Done(Some(_)) {
                    assert(effects@ == ef1.push(effects@.last()) && effects@.last() is LogError);
                } else {
                    assert(effects@ == ef1);
                }
                match entry0.action {
                    Action::User(_) => {
                        assert(ef1 == ef0);
                    },
                    Action::Builtin(b) => {
                        let (x, e1) = choose|x: (ExecuteResult<BuiltinAction>, Effect), e1: Seq<TriggeringEvent>| {
                            &&& #[trigger] executed(b, entry0.bindings, now, now_bits, aid@, Seq::empty(), e1, x)
                            &&& lifted(x.0, r0)
                            &&& match x.1 {
                                Effect::Nothing => ef1 == ef0,
                                Effect::Forall { .. } => ef1 == ef0,
                                _ => ef1 == ef0.push(x.1),
                            }
                        };
                        assert(executed(b, entry0.bindings, now, now_bits, aid@, Seq::empty(), e1, x));
                        assert((x.0 matches ExecuteResult::Done(Some(_))) == (r0 matches ExecuteResult::Done(Some(_))));
                        let asked = if x.1 is Nothing || x.1 is Forall { Seq::<Effect>::empty() } else { seq![x.1] };
                        assert(ef1 =~= ef0 + asked);
                        if r0 matches ExecuteResult::Done(Some(_)) {
                            assert(added.take(asked.len() as int) =~= asked);
                        } else {
                            assert(added =~= asked);
                        }
                        assert(carried(x, added));
                    },
                }
                assert(poll_effects(a0[i as int].1, now, now_bits, aid@, added));
                trace.lemma_flatten_push(added);
                trace = trace.push(added);
            }
            let ghost e1 = self.event_queue.events();
            self.queue_goals(goals);
            proof {
                let e2 = self.event_queue.events();
                assert(e2.take(e_start.len() as int) =~= e1.take(e_start.len() as int));
                assert forall|k: int| e_start.len() <= k < e2.len() implies (#[trigger] e2[k]).1 == EventSource::External by {
                    if k < e1.len() {
                        assert(e2[k] == e2.take(e1.len() as int)[k]);
                    } else {
                        assert(e2[e1.len() + (k - e1.len())] == e2[k]);
                    }
                }
            }
            i += 1;
        }
    }
}

impl<State, A: Clone + Execute<State = State>, Sched: Scheduler, Sel, PSel: PlanSelector<A>> BdiAgent<State, A, Sched, Sel, PSel> {
    /// Steps runnable intentions, as many as the budget allows, each as the scheduler
    /// picks it: the next formula of its top plan runs (a unification of arithmetic with the
    /// values `eval` computes; an action under the plan's bindings, as
    /// [`Self::run_pending_actions`] runs one). An action with more to do is left pending,
    /// and blocks the intention when it holds it; an event the step raises is queued, and
    /// blocks the intention. Stops once no intention is runnable, and at the first step
    /// that fails, which is returned with the intention.
    pub fn tick_intentions<E: Evaluate>(&mut self, now: u64, now_bits: u32, aid: &str, eval: &E, effects: &mut Vec<Effect>) -> (r: Option<(IntentionId, StepError)>)
        requires
            old(self).consistent(),
        ensures
            final(self).consistent(),
            final(self).plans == old(self).plans,
            final(self).intentions.next() == old(self).intentions.next(),
            final(self).event_queue.events().len() >= old(self).event_queue.events().len(),
            final(self).event_queue.events().take(old(self).event_queue.events().len() as int) == old(self).event_queue.events(),
            final(self).pending_actions@.take(old(self).pending_actions@.len() as int) == old(self).pending_actions@,
            r matches Some((id, _)) ==> old(self).intentions.stacks().contains_key(id),
            final(self).depth == old(self).depth,
            final(self).name == old(self).name,
            final(self).tick_budget == old(self).tick_budget,
            exists|trace: Seq<Map<IntentionId, Intention<A>>>, ids: Seq<IntentionId>, emitted: Seq<Seq<Effect>>|
                #![trigger progressed(trace), ids.len(), emitted.flatten()]
            {
                &&& progressed(trace)
                &&& trace.len() >= 1
                &&& trace[0] == old(self).intentions.stacks()
                &&& trace.last() == final(self).intentions.stacks()
                &&& trace.len() - 1 <= old(self).tick_budget.max_intentions
                &&& r is None ==> trace.len() - 1 == old(self).tick_budget.max_intentions
                    || !exists|id: IntentionId| final(self).intentions.runnable(id)
                &&& ids.len() == trace.len() - 1
                &&& emitted.len() == trace.len() - 1
                &&& final(effects)@ == old(effects)@ + emitted.flatten()
                &&& forall|k: int| 0 <= k < ids.len() ==> #[trigger] step_effects(trace[k], ids[k], now, now_bits, aid@, emitted[k])
            },
    {
        let ghost mut trace: Seq<Map<IntentionId, Intention<A>>> = seq![self.intentions.stacks()];
        let ghost mut ids: Seq<IntentionId> = Seq::empty();
        let ghost mut emitted: Seq<Seq<Effect>> = Seq::empty();
        let ghost f0 = effects@;
        let mut i: usize = 0;
        while i < self.tick_budget.max_intentions
            invariant
                self.consistent(),
                trace.len() == i + 1,
                trace[0] == old(self).intentions.stacks(),
                trace.last() == self.intentions.stacks(),
                progressed(trace),
                ids.len() == i,
                emitted.len() == i,
                f0 == old(effects)@,
                effects@ == f0 + emitted.flatten(),
                forall|k: int| 0 <= k < i ==> #[trigger] step_effects(trace[k], ids[k], now, now_bits, aid@, emitted[k]),
                i <= self.tick_budget.max_intentions,
                self.plans == old(self).plans,
                self.intentions.next() == old(self).intentions.next(),
                self.event_queue.events().len() >= old(self).event_queue.events().len(),
                self.event_queue.events().take(old(self).event_queue.events().len() as int) == old(self).event_queue.events(),
                self.pending_actions@.len() >= old(self).pending_actions@.len(),
                self.pending_actions@.take(old(self).pending_actions@.len() as int) == old(self).pending_actions@,
                forall|id: IntentionId| #[trigger] self.intentions.stacks().contains_key(id) ==> old(self).intentions.stacks().contains_key(id),
                self.depth == old(self).depth,
                self.name == old(self).name,
                self.tick_budget == old(self).tick_budget,
            ensures
                i == self.tick_budget.max_intentions || !exists|id: IntentionId| self.intentions.runnable(id),
            decreases self.tick_budget.max_intentions - i,
        {
            let mut raised: Vec<(EventSource, TriggeringEvent)> = Vec::new();
            let mut dispatched: Vec<(Option<IntentionId>, PendingAction<A>)> = Vec::new();
            let mut goals: Vec<TriggeringEvent> = Vec::new();
            let ghost s0 = self.intentions.stacks();
            let ghost q0 = self.intentions;
            let ghost kc0 = self.beliefs.contents();
            let ghost ef0 = effects@;
            let (id, step) = match self.intentions.step(&mut self.beliefs, &mut raised) {
                Some(x) => x,
                None => {
                    proof {
                        assert(self.intentions.intentions() == q0.intentions());
                        assert forall|x: IntentionId| !self.intentions.runnable(x) by {
                            assert(!q0.runnable(x));
                        }
                    }
                    break;
                },
            };
            assert(raised_by(Seq::empty(), raised@, id));
            assert(dispatched@.take(0) =~= dispatched@);
            let ghost st = step;
            let ghost s_mid = self.intentions.stacks();
            let ghost kc1 = self.beliefs.contents();
            let ghost re1 = raised@;
            let outcome = match step {
                FrameStep::Stepped(r) => r,
                FrameStep::Evaluate(lhs, rhs) => {
                    let b = self.intentions.top_bindings(id);
                    let sides = unification_sides(&lhs, &rhs, &b, eval);
                    self.intentions.finish_unify(id, sides)
                },
                FrameStep::Run(action) => {
                    let b = self.intentions.top_bindings(id);
                    let ghost run_with = b;
                    let result = run_action(action, &b, &self.beliefs, self.depth, now, now_bits, aid, eval, &mut self.state, &mut goals, effects);
                    proof {
                        lemma_top_action_runs(s0, s_mid, id, kc0, kc1, re1, st);
                        let added = effects@.skip(ef0.len() as int);
                        assert(effects@ =~= ef0 + added);
                        match top_action(s0, id) {
                            Some((Action::Builtin(ba), bnd)) => {
                                assert(run_with.lookup() =~= bnd.lookup());
                                let (x, e1) = choose|x: (ExecuteResult<BuiltinAction>, Effect), e1: Seq<TriggeringEvent>| {
                                    &&& #[trigger] executed(ba, run_with, now, now_bits, aid@, Seq::empty(), e1, x)
                                    &&& match x.1 {
                                        Effect::Nothing => effects@ == ef0,
                                        Effect::Forall { .. } => effects@ == ef0,
                                        _ => effects@ == ef0.push(x.1),
                                    }
                                };
                                lemma_executed_by_lookup(ba, run_with, bnd, now, now_bits, aid@, Seq::empty(), e1, x);
                                assert(added =~= asked(x.1));
                                assert(executed(ba, bnd, now, now_bits, aid@, Seq::empty(), e1, x));
                            },
                            _ => {
                                assert(effects@ == ef0);
                            },
                        }
                        assert(step_effects(s0, id, now, now_bits, aid@, added));
                    }
                    self.intentions.finish_action(id, result, &mut dispatched)
                },
            };
            assert(dispatched_by(Seq::empty(), dispatched@, id));
            proof {
                let added = effects@.skip(ef0.len() as int);
                if !(st is Run) {
                    lemma_top_action_runs(s0, s_mid, id, kc0, kc1, re1, st);
                    assert(effects@ =~= ef0 + added);
                }
                assert(step_effects(s0, id, now, now_bits, aid@, added));
                assert(effects@ =~= ef0 + added);
                emitted.lemma_flatten_push(added);
                emitted = emitted.push(added);
                ids = ids.push(id);
            }
            let ghost e0 = self.event_queue.events();
            let ghost p0 = self.pending_actions@;
            self.file_step(id, raised, dispatched);
            let ghost e1 = self.event_queue.events();
            self.queue_goals(goals);
            proof {
                let m1 = self.intentions.stacks();
                assert(s0.contains_key(id));
                assert(advanced(s0, m1));
                lemma_progressed_push(trace, m1);
                let t0 = trace;
                trace = trace.push(m1);
                assert forall|k: int| 0 <= k < ids.len() implies #[trigger] step_effects(trace[k], ids[k], now, now_bits, aid@, emitted[k]) by {
                    if k < ids.len() - 1 {
                        assert(step_effects(t0[k], ids[k], now, now_bits, aid@, emitted[k]));
                    }
                    assert(trace[k] == t0[k]);
                }
                let e2 = self.event_queue.events();
                let n = old(self).event_queue.events().len() as int;
                assert(e1.take(n) =~= e0.take(n));
                assert(e2.take(n) =~= e1.take(n));
                let m = old(self).pending_actions@.len() as int;
                assert(self.pending_actions@.take(m) =~= p0.take(m));
            }
            match outcome {
                Err(e) => {
                    proof {
                        assert(progressed(trace));
                        assert(trace.len() >= 1);
                        assert(trace[0] == old(self).intentions.stacks());
                        assert(trace.last() == self.intentions.stacks());
                        assert(trace.len() - 1 <= old(self).tick_budget.max_intentions);
                        assert(ids.len() == trace.len() - 1);
                        assert(emitted.len() == trace.len() - 1);
                        assert(effects@ == old(effects)@ + emitted.flatten());
                    }
                    return Some((id, e));
                },
                Ok(_) => {},
            }
            i += 1;
        }
        None
    }
}

/// From position `j` on, the queue holds the events, in order, each from outside.
pub open spec fn queued_from(
    e: Seq<((Trigger, LiteralModel, Option<GoalKind>), EventSource)>,
    j: int,
    events: Seq<(Trigger, LiteralModel, Option<GoalKind>)>,
) -> bool {
    &&& 0 <= j
    &&& j + events.len() <= e.len()
    &&& forall|k: int| 0 <= k < events.len() ==> #[trigger] e[j + k] == (events[k], EventSource::External)
}

/// The percepts as values: each adds or removes a belief.
pub open spec fn percept_models(ps: Seq<(Trigger, Literal)>) -> Seq<(Trigger, LiteralModel)> {
    ps.map_values(|p: (Trigger, Literal)| (p.0, p.1@))
}

/// The events the percepts raise, applied in order to the knowledge `c`: one for each
/// that changes it, from outside the agent.
pub open spec fn percept_events(c: Set<KnowledgeModel>, ps: Seq<(Trigger, LiteralModel)>) -> Seq<(Trigger, LiteralModel, Option<GoalKind>)>
    decreases ps.len(),
{
    if ps.len() == 0 {
        Seq::empty()
    } else {
        let (t, l) = ps[0];
        let k = (l, None::<FormulaModel>);
        let changed = if t == Trigger::Addition { !c.contains(k) } else { c.contains(k) };
        let next = if t == Trigger::Addition { c.insert(k) } else { c.remove(k) };
        (if changed { seq![(t, l, None::<GoalKind>)] } else { Seq::empty() }) + percept_events(next, ps.drop_first())
    }
}

/// A percept that adds a belief not held yet raises that addition, and one that adds a
/// belief already held raises nothing; a percept that removes a held belief raises that
/// deletion, and one that removes a belief not held raises nothing. These events ask for
/// no goal, and the percepts that follow see the beliefs as the earlier ones left them.
pub proof fn lemma_percept_raises_only_changes(c: Set<KnowledgeModel>, l: LiteralModel, rest: Seq<(Trigger, LiteralModel)>)
    ensures
        percept_events(c, seq![(Trigger::Addition, l)] + rest) == (if c.contains((l, None::<FormulaModel>)) {
            Seq::<(Trigger, LiteralModel, Option<GoalKind>)>::empty()
        } else {
            seq![(Trigger::Addition, l, None::<GoalKind>)]
        }) + percept_events(c.insert((l, None::<FormulaModel>)), rest),
        percept_events(c, seq![(Trigger::Deletion, l)] + rest) == (if c.contains((l, None::<FormulaModel>)) {
            seq![(Trigger::Deletion, l, None::<GoalKind>)]
        } else {
            Seq::<(Trigger, LiteralModel, Option<GoalKind>)>::empty()
        }) + percept_events(c.remove((l, None::<FormulaModel>)), rest),
{
    let a = seq![(Trigger::Addition, l)] + rest;
    let d = seq![(Trigger::Deletion, l)] + rest;
    assert(a[0] == (Trigger::Addition, l));
    assert(a.drop_first() =~= rest);
    assert(d[0] == (Trigger::Deletion, l));
    assert(d.drop_first() =~= rest);
}

/// A belief event (one that asks for no goal) that adds a literal leaves it held and one
/// that removes it leaves it not held, with every other piece of knowledge as it was; an
/// event that asks for a goal leaves the beliefs as they are.
pub proof fn lemma_believed_changes_only_its_literal(c: Set<KnowledgeModel>, event: TriggeringEvent, k: KnowledgeModel)
    ensures
        event.goal is None && event.trigger == Trigger::Addition ==> believed(c, event).contains((event.event@, None::<FormulaModel>)),
        event.goal is None && event.trigger == Trigger::Deletion ==> !believed(c, event).contains((event.event@, None::<FormulaModel>)),
        k != (event.event@, None::<FormulaModel>) ==> (believed(c, event).contains(k) == c.contains(k)),
        event.goal is Some ==> believed(c, event) == c,
{
}

/// Some intention of `m0` is gone in `m1`, or has less work left.
pub open spec fn advanced<A>(m0: Map<IntentionId, Intention<A>>, m1: Map<IntentionId, Intention<A>>) -> bool {
    exists|id: IntentionId| #[trigger] m0.contains_key(id)
        && (!m1.contains_key(id) || frames_work(m1[id].stack@) < frames_work(m0[id].stack@))
}

/// Each state of the intentions advances on the one before.
pub open spec fn progressed<A>(trace: Seq<Map<IntentionId, Intention<A>>>) -> bool {
    forall|k: int| 0 <= k < trace.len() - 1 ==> #[trigger] advanced(trace[k], trace[k + 1])
}

proof fn lemma_progressed_push<A>(trace: Seq<Map<IntentionId, Intention<A>>>, m: Map<IntentionId, Intention<A>>)
    requires
        trace.len() >= 1,
        progressed(trace),
        advanced(trace.last(), m),
    ensures
        progressed(trace.push(m)),
        trace.push(m).last() == m,
        trace.push(m)[0] == trace[0],
{
    let t = trace.push(m);
    assert forall|k: int| 0 <= k < t.len() - 1 implies #[trigger] advanced(t[k], t[k + 1]) by {
        if k < trace.len() - 1 {
            assert(t[k] == trace[k] && t[k + 1] == trace[k + 1]);
        }
    }
}

/// What a tick leaves to the world around the agent: the effects of the built-in actions
/// it ran, in order, and the step that failed, if one did, with its intention.
#[derive(Debug)]
pub struct TickReport {
    pub effects: Vec<Effect>,
    pub failure: Option<(IntentionId, StepError)>,
}

impl<State, A: Clone + Execute<State = State>, Sched: Scheduler, Sel: EventSelector, PSel: PlanSelector<A>> BdiAgent<State, A, Sched, Sel, PSel> {
    /// One tick of the agent. Each percept adds or removes a belief, raising an event from
    /// outside when that changes the beliefs; each received message is handled as
    /// [`Self::handle_message`] does, while ids for new intentions are left; then the queued
    /// events are handled ([`Self::handle_events`]); the events the percepts raised are
    /// queued; the pending actions are polled ([`Self::run_pending_actions`]); and the
    /// runnable intentions are stepped ([`Self::tick_intentions`]). The caller receives at
    /// most `budget.max_messages` messages for a tick.
    pub fn tick<E: Evaluate>(
        &mut self,
        percepts: Vec<(Trigger, Literal)>,
        messages: Vec<(bool, String, Literal)>,
        now: u64,
        now_bits: u32,
        aid: &str,
        eval: &E,
    ) -> (r: TickReport)
        requires
            old(self).consistent(),
        ensures
            final(self).consistent(),
            final(self).plans.plans() == old(self).plans.plans(),
            final(self).depth == old(self).depth,
            final(self).name == old(self).name,
            final(self).tick_budget == old(self).tick_budget,
            ({
                let raised = percept_events(old(self).beliefs.contents(), percept_models(percepts@));
                exists|j: int| #[trigger] queued_from(final(self).event_queue.events(), j, raised)
            }),
            ({
                let a0 = old(self).pending_actions@;
                let n = polled_count(old(self).tick_budget.max_pending_actions, a0.len());
                exists|polled: Seq<Seq<Effect>>, trace: Seq<Map<IntentionId, Intention<A>>>, ids: Seq<IntentionId>, emitted: Seq<Seq<Effect>>|
                    #![trigger polled.flatten(), progressed(trace), ids.len(), emitted.flatten()]
                {
                    &&& polled.len() == n
                    &&& forall|k: int| 0 <= k < n ==> #[trigger] poll_effects(a0[k].1, now, now_bits, aid@, polled[k])
                    &&& progressed(trace)
                    &&& trace.len() >= 1
                    &&& trace.last() == final(self).intentions.stacks()
                    &&& trace.len() - 1 <= old(self).tick_budget.max_intentions
                    &&& ids.len() == trace.len() - 1
                    &&& emitted.len() == trace.len() - 1
                    &&& forall|k: int| 0 <= k < ids.len() ==> #[trigger] step_effects(trace[k], ids[k], now, now_bits, aid@, emitted[k])
                    &&& r.failure matches Some((id, _)) ==> trace[0].contains_key(id)
                    &&& r.effects@ == polled.flatten() + emitted.flatten()
                }
            }),
    {
        let ghost ps = percept_models(percepts@);
        let ghost all = percept_events(self.beliefs.contents(), ps);
        let mut sensed: Vec<(EventSource, TriggeringEvent)> = Vec::new();
        let mut i: usize = 0;
        proof {
            assert(ps.skip(0) =~= ps);
            assert(sensed@.map_values(|e: (EventSource, TriggeringEvent)| e.1@) =~= Seq::<(Trigger, LiteralModel, Option<GoalKind>)>::empty());
        }
        while i < percepts.len()
            invariant
                self.consistent(),
                i <= percepts@.len(),
                ps == percept_models(percepts@),
                self.pending_actions@ == old(self).pending_actions@,
                self.tick_budget == old(self).tick_budget,
                all == sensed@.map_values(|e: (EventSource, TriggeringEvent)| e.1@) + percept_events(self.beliefs.contents(), ps.skip(i as int)),
                self.plans.plans() == old(self).plans.plans(),
                self.depth == old(self).depth,
                self.name == old(self).name,
                self.tick_budget == old(self).tick_budget,
            decreases percepts@.len() - i,
        {
            let ghost c0 = self.beliefs.contents();
            let ghost s0 = sensed@;
            let belief = percepts[i].1.clone();
            match percepts[i].0 {
                Trigger::Addition => {
                    self.beliefs.assert_belief(belief, &mut sensed);
                },
                Trigger::Deletion => {
                    self.beliefs.remove_belief(belief, &mut sensed);
                },
            }
            proof {
                let rest = ps.skip(i as int);
                assert(rest[0] == ps[i as int]);
                assert(rest.drop_first() =~= ps.skip(i + 1));
                let view = |e: (EventSource, TriggeringEvent)| e.1@;
                if sensed@.len() > s0.len() {
                    assert(sensed@ =~= s0.push(sensed@.last()));
                    assert(sensed@.map_values(view) =~= s0.map_values(view) + seq![sensed@.last().1@]);
                } else {
                    assert(sensed@ =~= s0);
                }
            }
            i += 1;
        }
        let mut j: usize = 0;
        while j < messages.len()
            invariant
                self.consistent(),
                j <= messages@.len(),
                self.pending_actions@ == old(self).pending_actions@,
                self.plans.plans() == old(self).plans.plans(),
                self.depth == old(self).depth,
                self.name == old(self).name,
                self.tick_budget == old(self).tick_budget,
            decreases messages@.len() - j,
        {
            if !self.intentions.has_fresh_id() {
                break;
            }
            let literal = messages[j].2.clone();
            self.handle_message(messages[j].0, messages[j].1.as_str(), literal, eval);
            j += 1;
        }
        self.handle_events(eval);
        proof {
            assert(ps.skip(percepts@.len() as int) =~= Seq::<(Trigger, LiteralModel)>::empty());
            assert(all =~= sensed@.map_values(|e: (EventSource, TriggeringEvent)| e.1@));
        }
        let mut goals: Vec<TriggeringEvent> = Vec::new();
        let mut k: usize = 0;
        while k < sensed.len()
            invariant
                k <= sensed@.len(),
                goals@.len() == k,
                forall|x: int| 0 <= x < k ==> (#[trigger] goals@[x])@ == sensed@[x].1@,
            decreases sensed@.len() - k,
        {
            goals.push(sensed[k].1.clone());
            k += 1;
        }
        let ghost j = self.event_queue.events().len() as int;
        self.queue_goals(goals);
        let ghost n1 = self.event_queue.events().len() as int;
        let ghost e1 = self.event_queue.events();
        let mut effects: Vec<Effect> = Vec::new();
        let ghost a0 = self.pending_actions@;
        self.run_pending_actions(now, now_bits, aid, eval, &mut effects);
        let ghost e2 = self.event_queue.events();
        let ghost s_mid = self.intentions.stacks();
        let ghost ef1 = effects@;
        let failure = self.tick_intentions(now, now_bits, aid, eval, &mut effects);
        proof {
            let n = polled_count(old(self).tick_budget.max_pending_actions, a0.len());
            let polled = choose|polled: Seq<Seq<Effect>>| {
                &&& polled.len() == n
                &&& ef1 == Seq::<Effect>::empty() + polled.flatten()
                &&& forall|k: int| 0 <= k < n ==> #[trigger] poll_effects(a0[k].1, now, now_bits, aid@, polled[k])
            };
            let (trace, ids, emitted) = choose|trace: Seq<Map<IntentionId, Intention<A>>>, ids: Seq<IntentionId>, emitted: Seq<Seq<Effect>>| {
                &&& progressed(trace)
                &&& trace.len() >= 1
                &&& trace[0] == s_mid
                &&& trace.last() == self.intentions.stacks()
                &&& trace.len() - 1 <= old(self).tick_budget.max_intentions
                &&& ids.len() == trace.len() - 1
                &&& emitted.len() == trace.len() - 1
                &&& effects@ == ef1 + emitted.flatten()
                &&& forall|k: int| 0 <= k < ids.len() ==> #[trigger] step_effects(trace[k], ids[k], now, now_bits, aid@, emitted[k])
            };
            assert(ef1 =~= polled.flatten());
            assert(effects@ == polled.flatten() + emitted.flatten());
        }
        proof {
            let e3 = self.event_queue.events();
            assert(all.len() == sensed@.len());
            assert(all.len() == goals@.len());
            assert forall|x: int| 0 <= x < all.len() implies #[trigger] e3[j + x] == (all[x], EventSource::External) by {
                assert(e1[j + x] == (goals@[x]@, EventSource::External));
                assert(goals@[x]@ == sensed@[x].1@);
                assert(all[x] == sensed@.map_values(|e: (EventSource, TriggeringEvent)| e.1@)[x]);
                assert(e2[j + x] == e2.take(n1)[j + x]);
                assert(e3[j + x] == e3.take(e2.len() as int)[j + x]);
            }
            assert(queued_from(self.event_queue.events(), j, all));
        }
        TickReport { effects, failure }
    }
}

impl<State, A: Clone, Sched, Sel: EventSelector, PSel: PlanSelector<A>> BdiAgent<State, A, Sched, Sel, PSel> {
    /// Handles queued events, as many as the budget allows, each as [`Self::handle_event`]
    /// does; it stops early once the queue has no event the selector accepts, or once no
    /// id is left for a new intention.
    pub fn handle_events<E: Evaluate>(&mut self, eval: &E)
        requires
            old(self).consistent(),
        ensures
            final(self).consistent(),
            final(self).plans.plans() == old(self).plans.plans(),
            final(self).pending_actions@ == old(self).pending_actions@,
            final(self).event_queue.events().len() <= old(self).event_queue.events().len(),
            final(self).event_queue.events().len() + old(self).tick_budget.max_events >= old(self).event_queue.events().len(),
            Sel::accepts_every_event() && old(self).intentions.next() + old(self).tick_budget.max_events < usize::MAX ==> {
                let n = old(self).event_queue.events().len();
                let k = if n <= old(self).tick_budget.max_events { n } else { old(self).tick_budget.max_events as nat };
                final(self).event_queue.events() == old(self).event_queue.events().subrange(k as int, n as int)
            },
            final(self).depth == old(self).depth,
            final(self).name == old(self).name,
            final(self).tick_budget == old(self).tick_budget,
            final(self).state == old(self).state,
    {
        let ghost fifo = Sel::accepts_every_event() && old(self).intentions.next() + old(self).tick_budget.max_events < usize::MAX;
        let ghost all = self.event_queue.events();
        proof {
            assert(all.subrange(0, all.len() as int) =~= all);
        }
        let mut handled: usize = 0;
        while handled < self.tick_budget.max_events
            invariant
                self.consistent(),
                self.plans.plans() == old(self).plans.plans(),
                self.pending_actions@ == old(self).pending_actions@,
                self.event_queue.events().len() + handled == old(self).event_queue.events().len(),
                handled <= self.tick_budget.max_events,
                all == old(self).event_queue.events(),
                fifo == (Sel::accepts_every_event() && old(self).intentions.next() + old(self).tick_budget.max_events < usize::MAX),
                self.intentions.next() <= old(self).intentions.next() + handled,
                fifo ==> self.event_queue.events() == all.subrange(handled as int, all.len() as int),
                self.depth == old(self).depth,
                self.name == old(self).name,
                self.tick_budget == old(self).tick_budget,
                self.state == old(self).state,
            ensures
                fifo ==> (handled == self.tick_budget.max_events || self.event_queue.events().len() == 0),
            decreases self.tick_budget.max_events - handled,
        {
            if !self.intentions.has_fresh_id() {
                break;
            }
            let ghost e0 = self.event_queue.events();
            let ghost b0 = self.intentions.blocks();
            let ghost next0 = self.intentions.next();
            let (event, source) = match self.event_queue.next_event() {
                Some(e) => e,
                None => {
                    break;
                },
            };
            let ghost e1 = self.event_queue.events();
            proof {
                let i = choose|i: int| 0 <= i < e0.len() && e0[i] == (event@, source) && e1 == swap_remove_front(e0, i);
                lemma_sources_swap_remove_front(e0, i);
                assert(event_sources(e0)[i] == source);
                assert forall|id: IntentionId| occurrences(event_sources(e1), EventSource::Internal(id)) + (if source == EventSource::Internal(id) { 1nat } else { 0nat })
                    == #[trigger] events_awaited(b0, id) by {
                    lemma_occurrences_swap_remove_front(event_sources(e0), i, EventSource::Internal(id));
                }
                if let EventSource::Internal(k) = source {
                    assert(events_awaited(b0, k) > 0);
                }
            }
            self.handle_event(event, source, eval);
            proof {
                let b1 = self.intentions.blocks();
                assert forall|id: IntentionId| #[trigger] events_awaited(b1, id) == occurrences(event_sources(e1), EventSource::Internal(id)) by {
                    assert(events_awaited(b0, id) == occurrences(event_sources(e0), EventSource::Internal(id)));
                }
                assert forall|id: IntentionId| #[trigger] action_awaited(b1, id) == action_awaited(b0, id) by {}
                assert(self.intentions.next() <= next0 + 1);
                if fifo {
                    assert(e1 =~= all.subrange(handled + 1, all.len() as int));
                }
            }
            handled += 1;
        }
        proof {
            if fifo {
                let n = all.len();
                let k = if n <= self.tick_budget.max_events { n } else { self.tick_budget.max_events as nat };
                assert(k == handled);
            }
        }
    }
}

} // verus!
