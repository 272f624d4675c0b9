//! Choosing among the applicable plans, and the timed built-in actions of plans.

use vstd::prelude::*;

use crate::bindings::{AliasMap, Bindings};
use crate::event::{GoalKind, Trigger, TriggeringEvent};
use crate::knowledge::query::ArithmeticExpression;
use crate::knowledge::KnowledgeBase;
use crate::literal::Literal;
use crate::resolve::Resolve;
use crate::term::{LiteralModel, Term, TermModel};
use crate::unification::traits::apply_structure;
use crate::variable::Variable;

pub mod action;
pub mod library;

pub use self::action::{forall_goals, BuiltinAction, Effect, LogLevel, VariableOrReceiver};
pub use self::library::{Plan, PlanLibrary};

verus! {

broadcast use vstd::std_specs::vec::group_vec_axioms;

/// Chooses the plan for an event: the first applicable plan it accepts is selected.
pub trait PlanSelector<A> {
    /// Whether the selector accepts every plan; a selector claims so only where it does.
    open spec fn accepts_every_plan() -> bool {
        false
    }

    /// Whether the applicable plan may be selected.
    fn filter_plan(&mut self, plan: &Plan<A>) -> (r: bool)
        ensures
            Self::accepts_every_plan() ==> r,
    ;
}

/// Selects the first applicable plan.
#[derive(Debug, Default, Clone, Copy)]
pub struct FirstApplicable;

impl<A> PlanSelector<A> for FirstApplicable {
    open spec fn accepts_every_plan() -> bool {
        true
    }

    /// Accepts every plan, so the first applicable one is selected.
    fn filter_plan(&mut self, plan: &Plan<A>) -> (r: bool)
        ensures
            r,
    {
        true
    }
}

/// A step of a plan body.
#[derive(Debug)]
pub enum Formula<A> {
    /// Add (or remove) a belief; a silent update raises no event.
    Belief { trigger: Trigger, belief: Literal, silent: bool },
    /// Raise a goal.
    Goal { kind: GoalKind, goal: Literal },
    /// Unify the two sides.
    Unify { lhs: ArithmeticExpression, rhs: ArithmeticExpression },
    /// Run an action.
    Action(Action<A>),
}

/// An action of a plan body: one the runtime provides, or one of the agent's own.
#[derive(Debug)]
pub enum Action<A> {
    Builtin(BuiltinAction),
    User(A),
}

/// The two actions are the same, but for what the clone of an action of the agent's own
/// gives.
pub open spec fn same_action<A: Clone>(a: Action<A>, b: Action<A>) -> bool {
    match (a, b) {
        (Action::Builtin(x), Action::Builtin(y)) => action::same_builtin(x, y),
        (Action::User(x), Action::User(y)) => cloned::<A>(x, y),
        _ => false,
    }
}

/// The two formulas are the same, but for what the clone of an action of the agent's own
/// gives.
pub open spec fn same_formula<A: Clone>(a: Formula<A>, b: Formula<A>) -> bool {
    match (a, b) {
        (Formula::Belief { trigger: t1, belief: b1, silent: s1 }, Formula::Belief { trigger: t2, belief: b2, silent: s2 }) => t1 == t2 && b1@ == b2@ && s1 == s2,
        (Formula::Goal { kind: k1, goal: g1 }, Formula::Goal { kind: k2, goal: g2 }) => k1 == k2 && g1@ == g2@,
        (Formula::Unify { lhs: l1, rhs: r1 }, Formula::Unify { lhs: l2, rhs: r2 }) => l1@ == l2@ && r1@ == r2@,
        (Formula::Action(x), Formula::Action(y)) => same_action(x, y),
        _ => false,
    }
}

impl<A: Clone> Clone for Action<A> {
    fn clone(&self) -> (r: Self)
        ensures
            same_action(*self, r),
    {
        match self {
            Action::Builtin(b) => Action::Builtin(b.clone()),
            Action::User(a) => Action::User(a.clone()),
        }
    }
}

impl<A: Clone> Clone for Formula<A> {
    fn clone(&self) -> (r: Self)
        ensures
            same_formula(*self, r),
    {
        match self {
            Formula::Belief { trigger, belief, silent } => Formula::Belief { trigger: *trigger, belief: belief.clone(), silent: *silent },
            Formula::Goal { kind, goal } => Formula::Goal { kind: *kind, goal: goal.clone() },
            Formula::Unify { lhs, rhs } => Formula::Unify { lhs: lhs.clone(), rhs: rhs.clone() },
            Formula::Action(a) => Formula::Action(a.clone()),
        }
    }
}

/// An action of the agent's own.
pub trait Execute: Sized {
    /// What the agent's own actions work on.
    type State;

    /// Runs the action under the bindings: it is done, with the bindings it produced if
    /// any, or it has more to do, in the returned state.
    fn execute(self, bindings: &Bindings, knowledge: &KnowledgeBase, state: &mut Self::State) -> ExecuteResult<Self>;

    /// Whether the intention that runs the action waits for it to complete.
    spec fn blocks_intention(&self) -> bool;

    /// Whether the intention that runs the action waits for it to complete: what
    /// [`Execute::blocks_intention`] says.
    fn should_block_intention(&self) -> (r: bool)
        ensures
            r == self.blocks_intention(),
    ;
}

/// Whether the intention that runs the action waits for it to complete: a built-in action
/// other than `.at` does; one of the agent's own does as it says.
pub open spec fn action_blocks<A: Execute>(a: Action<A>) -> bool {
    match a {
        Action::Builtin(b) => !(b is At),
        Action::User(u) => u.blocks_intention(),
    }
}

impl<A: Execute> Action<A> {
    /// Whether the intention that runs the action waits for it to complete.
    pub fn should_block_intention(&self) -> (r: bool)
        ensures
            r == action_blocks(*self),
    {
        match self {
            Action::Builtin(b) => b.should_block_intention(),
            Action::User(a) => a.should_block_intention(),
        }
    }
}

/// How running an action went: it has more to do (in the given state), or it is done,
/// with the bindings it produced, if any.
#[derive(Debug)]
pub enum ExecuteResult<S> {
    Pending(S),
    Done(Option<Bindings>),
}

impl<S> ExecuteResult<S> {
    /// The same result, with `f` applied to what has more to do.
    pub fn map<T, F: FnOnce(S) -> T>(self, f: F) -> (r: ExecuteResult<T>)
        requires
            self matches ExecuteResult::Pending(s) ==> f.requires((s,)),
        ensures
            match self {
                ExecuteResult::Pending(s) => r matches ExecuteResult::Pending(t) && f.ensures((s,), t),
                ExecuteResult::Done(b) => r matches ExecuteResult::Done(c) && c == b,
            },
    {
        match self {
            ExecuteResult::Pending(s) => ExecuteResult::Pending(f(s)),
            ExecuteResult::Done(b) => ExecuteResult::Done(b),
        }
    }
}

/// State of the `.wait` action: when it started waiting (a time of the monotonic clock),
/// and for how long it waits.
#[derive(Debug, Clone, Copy, PartialEq, Eq, Structural)]
pub struct WaitState {
    pub start: Option<u64>,
    pub interval: u64,
}

/// The time elapsed from `start` to `now` (none when the clock reads earlier).
pub open spec fn elapsed(start: u64, now: u64) -> u64 {
    if now >= start { (now - start) as u64 } else { 0 }
}

/// The time elapsed, added to the start, is the time now, once the clock has reached the
/// start; before that, none has elapsed.
pub proof fn lemma_elapsed_measures_from_start(start: u64, now: u64)
    ensures
        now >= start ==> elapsed(start, now) + start == now,
        now < start ==> elapsed(start, now) == 0,
{
}

impl WaitState {
    /// A wait for the interval, not started yet.
    pub fn wait(interval: u64) -> (r: WaitState)
        ensures
            r == (WaitState { start: None, interval }),
    {
        WaitState { start: None, interval }
    }

    /// Polls the wait at time `now`: the first poll starts it; it is done once the
    /// interval has elapsed since.
    pub fn poll(self, now: u64) -> (r: ExecuteResult<WaitState>)
        ensures
            match self.start {
                None => r == ExecuteResult::<WaitState>::Pending(WaitState { start: Some(now), interval: self.interval }),
                Some(s) => if elapsed(s, now) >= self.interval {
                    r matches ExecuteResult::Done(None)
                } else {
                    r == ExecuteResult::<WaitState>::Pending(self)
                },
            },
    {
        match self.start {
            None => ExecuteResult::Pending(WaitState { start: Some(now), interval: self.interval }),
            Some(s) => {
                let e = if now >= s { now - s } else { 0 };
                if e >= self.interval {
                    ExecuteResult::Done(None)
                } else {
                    ExecuteResult::Pending(self)
                }
            },
        }
    }
}

/// State of the `.at` action: when it was armed, how long after that its goal is raised,
/// and the goal.
#[derive(Debug)]
pub struct AtState {
    pub start: Option<u64>,
    pub delay: u64,
    pub goal: Literal,
}

impl Clone for AtState {
    fn clone(&self) -> (r: Self)
        ensures
            r.start == self.start,
            r.delay == self.delay,
            r.goal@ == self.goal@,
    {
        AtState { start: self.start, delay: self.delay, goal: self.goal.clone() }
    }
}

impl AtState {
    /// Raises the goal once the delay has passed, starting from the first poll.
    pub fn at(delay: u64, goal: Literal) -> (r: AtState)
        ensures
            r.start is None,
            r.delay == delay,
            r.goal@ == goal@,
    {
        AtState { start: None, delay, goal }
    }

    /// Polls at time `now`: the first poll arms it; once the delay has passed since, it is
    /// done and its goal, resolved with the bindings, is raised as a goal to achieve (an
    /// event from outside any intention, pushed to `events`).
    pub fn poll(self, now: u64, bindings: &Bindings, events: &mut Vec<TriggeringEvent>) -> (r: ExecuteResult<AtState>)
        ensures
            match self.start {
                None => r matches ExecuteResult::Pending(s) && s.start == Some(now) && s.delay == self.delay && s.goal@ == self.goal@
                    && final(events)@ == old(events)@,
                Some(st) => if elapsed(st, now) < self.delay {
                    r matches ExecuteResult::Pending(s) && s.start == Some(st) && s.delay == self.delay && s.goal@ == self.goal@
                        && final(events)@ == old(events)@
                } else {
                    &&& r matches ExecuteResult::Done(None)
                    &&& final(events)@.len() == old(events)@.len() + 1
                    &&& final(events)@.take(old(events)@.len() as int) == old(events)@
                    &&& final(events)@.last()@ == (
                        Trigger::Addition,
                        LiteralModel { negated: self.goal.negated, structure: apply_structure(bindings.lookup(), self.goal.structure@) },
                        Some(GoalKind::Achieve),
                    )
                },
            },
    {
        let AtState { start, delay, goal } = self;
        match start {
            None => ExecuteResult::Pending(AtState { start: Some(now), delay, goal }),
            Some(st) => {
                let e = if now >= st { now - st } else { 0 };
                if e < delay {
                    return ExecuteResult::Pending(AtState { start: Some(st), delay, goal });
                }
                let resolved = match goal.resolve(bindings) {
                    Ok(l) => l,
                    Err(_) => {
                        return ExecuteResult::Done(None);
                    },
                };
                let ghost before = events@;
                events.push(TriggeringEvent { trigger: Trigger::Addition, event: resolved, goal: Some(GoalKind::Achieve) });
                assert(events@.take(before.len() as int) =~= before);
                ExecuteResult::Done(None)
            },
        }
    }
}

/// The bindings of the `.now` action: the variable bound to the time, given as the bits of
/// its `f32`.
pub fn now_bindings(variable: Variable, time_bits: u32) -> (r: Bindings)
    ensures
        r.entries() == seq![(variable.id.0, Some(TermModel::Number(time_bits)))],
        r.alias_pairs() == Seq::<(u32, u32)>::empty(),
{
    let entries = vec![(variable.id, Some(Term::Number(time_bits)))];
    let r = Bindings::new(entries, AliasMap::empty());
    assert(r.entries() =~= seq![(variable.id.0, Some(TermModel::Number(time_bits)))]);
    r
}

/// The bindings of the `.me` action: the variable bound to the agent's identifier.
pub fn me_bindings(variable: Variable, aid: &str) -> (r: Bindings)
    ensures
        r.entries() == seq![(variable.id.0, Some(TermModel::String(vstd::utf8::encode_utf8(aid@))))],
        r.alias_pairs() == Seq::<(u32, u32)>::empty(),
{
    let s = crate::bytestring::bstring_from_slice(aid.as_bytes());
    let entries = vec![(variable.id, Some(Term::String(s)))];
    let r = Bindings::new(entries, AliasMap::empty());
    assert(r.entries() =~= seq![(variable.id.0, Some(TermModel::String(vstd::utf8::encode_utf8(aid@))))]);
    r
}

/// Whether a sent literal informs (an addition) or is not understood (a deletion).
pub fn sends_inform(trigger: Trigger) -> (r: bool)
    ensures
        r == (trigger == Trigger::Addition),
{
    match trigger {
        Trigger::Addition => true,
        Trigger::Deletion => false,
    }
}

} // verus!
