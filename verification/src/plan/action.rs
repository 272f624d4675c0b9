//! The built-in actions of plan bodies, and what running one asks of the agent.

use vstd::prelude::*;

use crate::bindings::{ground_entries, well_kept, Bindings};
use crate::event::{GoalKind, Trigger, TriggeringEvent};
use crate::knowledge::answers::{
    all_refuted, asks_held_fact, bindings_empty, conjunction_surely_holds, covered, facts_meet, finds, ground_fact_for, plan_sound, starts_alike,
    Evaluate,
};
use crate::knowledge::lowering::{lowered, LeafModel, OperandModel};
use crate::knowledge::{KnowledgeBase, KnowledgeModel};
use crate::unification::substitution::satisfies;
use crate::knowledge::query::{FormulaModel, QueryFormula};
use crate::literal::Literal;
use crate::resolve::{resolve_terms, Resolve};
use crate::term::conversion::{aid_from_term, aid_refusal, aid_text, FromTermError};
use crate::term::{clone_terms, terms_model, LiteralModel, Term, TermModel};
use crate::unification::traits::apply_structure;
use crate::variable::Variable;

use super::{me_bindings, now_bindings, AtState, ExecuteResult, WaitState};

verus! {

broadcast use vstd::std_specs::vec::group_vec_axioms;

/// How important a logged line is.
#[derive(Debug, Clone, Copy, PartialEq, Eq, Structural)]
pub enum LogLevel {
    Error,
    Warn,
    Info,
    Debug,
    Trace,
}

/// Where a literal is sent: a variable that is to name the receiver, or the receiver,
/// given by the text of its agent identifier.
#[derive(Debug)]
pub enum VariableOrReceiver {
    Variable(Variable),
    Receiver(String),
}

/// The receiver a resolved variable names: the agent identifier its term gives.
pub open spec fn receiver_text(t: TermModel) -> Option<Seq<char>> {
    aid_text(t)
}

/// The two destinations are the same.
pub open spec fn same_receiver(a: VariableOrReceiver, b: VariableOrReceiver) -> bool {
    match (a, b) {
        (VariableOrReceiver::Variable(x), VariableOrReceiver::Variable(y)) => x == y,
        (VariableOrReceiver::Receiver(x), VariableOrReceiver::Receiver(y)) => x@ == y@,
        _ => false,
    }
}

impl Clone for VariableOrReceiver {
    fn clone(&self) -> (r: Self)
        ensures
            same_receiver(*self, r),
    {
        match self {
            VariableOrReceiver::Variable(v) => VariableOrReceiver::Variable(*v),
            VariableOrReceiver::Receiver(s) => VariableOrReceiver::Receiver(s.clone()),
        }
    }
}

impl VariableOrReceiver {
    /// A receiver stays as it is; a variable names the receiver whose agent identifier its
    /// term gives, or stays a variable while it is unbound. A term that is no agent
    /// identifier is refused.
    pub fn resolve(self, bindings: &Bindings) -> (r: Result<VariableOrReceiver, FromTermError>)
        ensures
            match self {
                VariableOrReceiver::Receiver(s) => r matches Ok(VariableOrReceiver::Receiver(x)) && x@ == s@,
                VariableOrReceiver::Variable(v) => match bindings.lookup()(v.id.0) {
                    TermModel::Variable(_) => r matches Ok(VariableOrReceiver::Variable(w)) && w == v,
                    t => match aid_text(t) {
                        Some(s) => r matches Ok(VariableOrReceiver::Receiver(x)) && x@ == s,
                        None => r matches Err(e) && aid_refusal(t, e),
                    },
                },
            },
    {
        match self {
            VariableOrReceiver::Receiver(s) => Ok(VariableOrReceiver::Receiver(s)),
            VariableOrReceiver::Variable(v) => {
                let t = match Term::Variable(v).resolve(bindings) {
                    Ok(t) => t,
                    Err(_) => {
                        return Ok(VariableOrReceiver::Variable(v));
                    },
                };
                match t {
                    Term::Variable(_) => Ok(VariableOrReceiver::Variable(v)),
                    _ => match aid_from_term(&t) {
                        Ok(s) => Ok(VariableOrReceiver::Receiver(s)),
                        Err(e) => Err(e),
                    },
                }
            },
        }
    }
}

/// An action the runtime itself provides.
#[derive(Debug)]
pub enum BuiltinAction {
    /// Log the terms, resolved, at the given level.
    Log(LogLevel, Vec<Term>),
    /// Stop the platform the agent runs on.
    StopPlatform,
    /// Send a belief update to another agent.
    SendLiteral(VariableOrReceiver, Trigger, Literal),
    /// Hold the intention until the interval has passed.
    Wait(WaitState),
    /// Raise the goal as a goal to achieve once for each way the query holds.
    Forall { query: QueryFormula, goal: Literal },
    /// Raise the goal as a goal to achieve once the delay has passed.
    At(AtState),
    /// Bind the current time in milliseconds to the variable.
    Now(Variable),
    /// Bind the agent's own identifier to the variable.
    Me(Variable),
}

/// The two built-in actions are the same.
pub open spec fn same_builtin(a: BuiltinAction, b: BuiltinAction) -> bool {
    match (a, b) {
        (BuiltinAction::Log(l1, t1), BuiltinAction::Log(l2, t2)) => l1 == l2 && terms_model(t1@) == terms_model(t2@),
        (BuiltinAction::StopPlatform, BuiltinAction::StopPlatform) => true,
        (BuiltinAction::SendLiteral(r1, t1, l1), BuiltinAction::SendLiteral(r2, t2, l2)) => same_receiver(r1, r2) && t1 == t2 && l1@ == l2@,
        (BuiltinAction::Wait(w1), BuiltinAction::Wait(w2)) => w1 == w2,
        (BuiltinAction::Forall { query: q1, goal: g1 }, BuiltinAction::Forall { query: q2, goal: g2 }) => q1@ == q2@ && g1@ == g2@,
        (BuiltinAction::At(s1), BuiltinAction::At(s2)) => s1.start == s2.start && s1.delay == s2.delay && s1.goal@ == s2.goal@,
        (BuiltinAction::Now(v1), BuiltinAction::Now(v2)) => v1 == v2,
        (BuiltinAction::Me(v1), BuiltinAction::Me(v2)) => v1 == v2,
        _ => false,
    }
}

impl Clone for BuiltinAction {
    fn clone(&self) -> (r: Self)
        ensures
            same_builtin(*self, r),
    {
        match self {
            BuiltinAction::Log(level, terms) => BuiltinAction::Log(*level, clone_terms(terms)),
            BuiltinAction::StopPlatform => BuiltinAction::StopPlatform,
            BuiltinAction::SendLiteral(receiver, trigger, literal) => BuiltinAction::SendLiteral(receiver.clone(), *trigger, literal.clone()),
            BuiltinAction::Wait(w) => BuiltinAction::Wait(*w),
            BuiltinAction::Forall { query, goal } => BuiltinAction::Forall { query: query.clone(), goal: goal.clone() },
            BuiltinAction::At(s) => BuiltinAction::At(s.clone()),
            BuiltinAction::Now(v) => BuiltinAction::Now(*v),
            BuiltinAction::Me(v) => BuiltinAction::Me(*v),
        }
    }
}

/// What running a built-in action asks of the agent, beyond its result.
#[derive(Debug)]
pub enum Effect {
    Nothing,
    /// Log the (resolved) terms.
    Log(LogLevel, Vec<Term>),
    /// Log that the action could not be carried out, and why.
    LogError(&'static str),
    /// Stop the platform.
    StopPlatform,
    /// Send the literal to the receiver named by the text; an inform when `inform`, else a
    /// not-understood.
    Send { inform: bool, receiver: String, literal: Literal },
    /// Raise the goal as a goal to achieve for each way the query holds under the bindings
    /// the action ran with.
    Forall { query: QueryFormula, goal: Literal },
}

/// Each of the `found` bindings entails the `bindings` and, of some conjunction of the
/// query's plan, that its literals are held in `kb` and its unifications of terms hold.
pub open spec fn sound_answers(found: Seq<Bindings>, bindings: Bindings, query: QueryFormula, kb: Set<KnowledgeModel>) -> bool {
    forall|k: int, f: spec_fn(u32) -> TermModel| 0 <= k < found.len() && #[trigger] satisfies(f, found[k].constraints()) ==> {
        &&& satisfies(f, bindings.constraints())
        &&& plan_sound(f, lowered(query@), kb)
    }
}

/// The goals are the goal resolved under each of the `found` bindings, in order, each as
/// a goal to achieve.
pub open spec fn goals_for(goals: Seq<TriggeringEvent>, found: Seq<Bindings>, goal: Literal) -> bool {
    &&& goals.len() == found.len()
    &&& forall|k: int| 0 <= k < goals.len() ==> (#[trigger] goals[k])@ == (
        Trigger::Addition,
        LiteralModel { negated: goal.negated, structure: apply_structure(found[k].lookup(), goal.structure@) },
        Some(GoalKind::Achieve),
    )
}

/// The goals `.forall` raises: for each answer the knowledge base gives the query (rules
/// answered `depth` deep, under the bindings the action runs with), the goal resolved
/// under it, as a goal to achieve; in the order the answers are found. No answer that
/// facts give is missed.
pub fn forall_goals<E: Evaluate>(query: &QueryFormula, goal: &Literal, bindings: &Bindings, knowledge: &KnowledgeBase, depth: u64, eval: &E) -> (r: Vec<TriggeringEvent>)
    ensures
        exists|found: Seq<Bindings>| {
            &&& #[trigger] goals_for(r@, found, *goal)
            &&& sound_answers(found, *bindings, *query, knowledge.contents())
            &&& (exists|b: Bindings, j: int| {
                &&& starts_alike(b, Some(bindings))
                &&& 0 <= j < lowered(query@).conjunctions.len()
                &&& #[trigger] conjunction_surely_holds(b, lowered(query@).conjunctions[j], knowledge.contents())
            }) ==> found.len() >= 1
            &&& (exists|j: int| {
                &&& 0 <= j < lowered(query@).conjunctions.len()
                &&& lowered(query@).conjunctions[j].len() == 1
                &&& #[trigger] asks_held_fact(lowered(query@).conjunctions[j][0], knowledge.contents())
            }) && bindings_empty(*bindings) ==> found.len() >= 1
            &&& all_refuted(lowered(query@), knowledge.contents()) && bindings_empty(*bindings) ==> found.len() == 0
            &&& forall|m: LiteralModel, g: LiteralModel| (exists|j: int| 0 <= j < lowered(query@).conjunctions.len()
                && lowered(query@).conjunctions[j] == seq![LeafModel { negated: false, operand: OperandModel::Literal(m) }])
                && bindings_empty(*bindings) && knowledge.contents().contains((g, None::<FormulaModel>)) && ground_fact_for(g, m)
                ==> #[trigger] finds(found, m, g)
            &&& well_kept(*bindings) && ground_entries(*bindings) ==> forall|f: spec_fn(u32) -> TermModel, j: int|
                0 <= j < lowered(query@).conjunctions.len() && satisfies(f, bindings.constraints())
                && #[trigger] facts_meet(f, lowered(query@).conjunctions[j], knowledge.contents()) ==> covered(found, f)
        },
{
    let found = knowledge.answers(query, Some(bindings), depth, eval);
    let mut goals: Vec<TriggeringEvent> = Vec::new();
    let mut i: usize = 0;
    while i < found.len()
        invariant
            i <= found@.len(),
            goals@.len() == i,
            forall|k: int| 0 <= k < i ==> (#[trigger] goals@[k])@ == (
                Trigger::Addition,
                LiteralModel { negated: goal.negated, structure: apply_structure(found@[k].lookup(), goal.structure@) },
                Some(GoalKind::Achieve),
            ),
        decreases found@.len() - i,
    {
        let resolved = goal.clone().resolve(&found[i]).unwrap();
        goals.push(TriggeringEvent { trigger: Trigger::Addition, event: resolved, goal: Some(GoalKind::Achieve) });
        i += 1;
    }
    proof {
        assert(crate::bindings::optional_constraints(Some(bindings)) == bindings.constraints());
        assert(goals_for(goals@, found@, *goal));
    }
    goals
}

/// What running the built-in action `a` once under the bindings comes to (`r`: how it
/// went, and what it asks of the agent), at monotonic time `now` (`now_bits` the same as
/// the bits of an `f32`) as the agent `aid`, with the goals it raises taking the events
/// from `e0` to `e1`.
pub open spec fn executed(
    a: BuiltinAction,
    bindings: Bindings,
    now: u64,
    now_bits: u32,
    aid: Seq<char>,
    e0: Seq<TriggeringEvent>,
    e1: Seq<TriggeringEvent>,
    r: (ExecuteResult<BuiltinAction>, Effect),
) -> bool {
    &&& !(a is At) ==> e1 == e0
    &&& match a {
        BuiltinAction::Log(level, terms) => r.0 matches ExecuteResult::Done(None)
            && r.1 matches Effect::Log(l, ts) && l == level && terms_model(ts@) == crate::unification::substitution::apply_all(bindings.lookup(), terms_model(terms@)),
        BuiltinAction::StopPlatform => r.0 matches ExecuteResult::Done(None) && r.1 is StopPlatform,
        BuiltinAction::SendLiteral(receiver, trigger, literal) => r.0 matches ExecuteResult::Done(None) && match receiver {
            VariableOrReceiver::Receiver(s) => r.1 matches Effect::Send { inform, receiver: x, literal: l }
                && inform == (trigger == Trigger::Addition) && x@ == s@
                && l@ == (LiteralModel { negated: literal.negated, structure: apply_structure(bindings.lookup(), literal.structure@) }),
            VariableOrReceiver::Variable(v) => match bindings.lookup()(v.id.0) {
                TermModel::Variable(_) => r.1 is LogError,
                t => match receiver_text(t) {
                    Some(s) => r.1 matches Effect::Send { inform, receiver: x, literal: l }
                        && inform == (trigger == Trigger::Addition) && x@ == s
                        && l@ == (LiteralModel { negated: literal.negated, structure: apply_structure(bindings.lookup(), literal.structure@) }),
                    None => r.1 is LogError,
                },
            },
        },
        BuiltinAction::Wait(state) => r.1 is Nothing && match state.start {
            None => r.0 matches ExecuteResult::Pending(BuiltinAction::Wait(s)) && s == (WaitState { start: Some(now), interval: state.interval }),
            Some(st) => if super::elapsed(st, now) >= state.interval {
                r.0 matches ExecuteResult::Done(None)
            } else {
                r.0 matches ExecuteResult::Pending(BuiltinAction::Wait(s)) && s == state
            },
        },
        BuiltinAction::At(state) => r.1 is Nothing && match state.start {
            None => r.0 matches ExecuteResult::Pending(BuiltinAction::At(s)) && s.start == Some(now) && s.delay == state.delay && s.goal@ == state.goal@
                && e1 == e0,
            Some(st) => if super::elapsed(st, now) < state.delay {
                r.0 matches ExecuteResult::Pending(BuiltinAction::At(s)) && s.start == Some(st) && s.delay == state.delay && s.goal@ == state.goal@
                    && e1 == e0
            } else {
                &&& r.0 matches ExecuteResult::Done(None)
                &&& e1.len() == e0.len() + 1
                &&& e1.take(e0.len() as int) == e0
                &&& e1.last()@ == (
                    Trigger::Addition,
                    LiteralModel { negated: state.goal.negated, structure: apply_structure(bindings.lookup(), state.goal.structure@) },
                    Some(crate::event::GoalKind::Achieve),
                )
            },
        },
        BuiltinAction::Now(v) => r.0 matches ExecuteResult::Done(Some(b))
            && b.entries() == seq![(v.id.0, Some(TermModel::Number(now_bits)))] && b.alias_pairs() == Seq::<(u32, u32)>::empty()
            && r.1 is Nothing,
        BuiltinAction::Me(v) => r.0 matches ExecuteResult::Done(Some(b))
            && b.entries() == seq![(v.id.0, Some(TermModel::String(vstd::utf8::encode_utf8(aid))))] && b.alias_pairs() == Seq::<(u32, u32)>::empty()
            && r.1 is Nothing,
        BuiltinAction::Forall { query, goal } => r.0 matches ExecuteResult::Done(None)
            && r.1 matches Effect::Forall { query: q, goal: g } && q == query && g == goal,
    }
}

impl BuiltinAction {
    /// The `.wait` action for the interval, in milliseconds.
    pub fn wait(interval: u64) -> (r: BuiltinAction)
        ensures
            r == BuiltinAction::Wait(WaitState { start: None, interval }),
    {
        BuiltinAction::Wait(WaitState::wait(interval))
    }

    /// The `.at` action for the delay, in milliseconds, and the goal.
    pub fn at(delay: u64, goal: Literal) -> (r: BuiltinAction)
        ensures
            r matches BuiltinAction::At(s) && s.start is None && s.delay == delay && s.goal@ == goal@,
    {
        BuiltinAction::At(AtState::at(delay, goal))
    }

    /// Whether the intention that runs the action waits for it: all but `.at` hold it.
    pub fn should_block_intention(&self) -> (r: bool)
        ensures
            r == !(self is At),
    {
        match self {
            BuiltinAction::At(_) => false,
            _ => true,
        }
    }

    /// Runs the action once under the bindings, at monotonic time `now` (milliseconds);
    /// `now_bits` is the current time in milliseconds as the bits of an `f32`, and `aid`
    /// the agent's own identifier. Goals that `.at` raises are pushed to `events`; what the
    /// agent is to do besides is the returned effect.
    pub fn execute(self, bindings: &Bindings, now: u64, now_bits: u32, aid: &str, events: &mut Vec<TriggeringEvent>) -> (r: (ExecuteResult<BuiltinAction>, Effect))
        ensures
            executed(self, *bindings, now, now_bits, aid@, old(events)@, final(events)@, r),
    {
        match self {
            BuiltinAction::Log(level, terms) => {
                let resolved = resolve_terms(&terms, bindings);
                (ExecuteResult::Done(None), Effect::Log(level, resolved))
            },
            BuiltinAction::StopPlatform => (ExecuteResult::Done(None), Effect::StopPlatform),
            BuiltinAction::SendLiteral(receiver, trigger, literal) => {
                let literal = match literal.resolve(bindings) {
                    Ok(l) => l,
                    Err(_) => {
                        return (ExecuteResult::Done(None), Effect::LogError("failed to resolve literal to send"));
                    },
                };
                let inform = super::sends_inform(trigger);
                match receiver.resolve(bindings) {
                    Ok(VariableOrReceiver::Receiver(receiver)) => (ExecuteResult::Done(None), Effect::Send { inform, receiver, literal }),
                    Ok(VariableOrReceiver::Variable(_)) => (ExecuteResult::Done(None), Effect::LogError("failed to resolve .send arguments")),
                    Err(_) => (ExecuteResult::Done(None), Effect::LogError("failed to parse receiver")),
                }
            },
            BuiltinAction::Wait(state) => {
                let r = match state.poll(now) {
                    ExecuteResult::Pending(s) => ExecuteResult::Pending(BuiltinAction::Wait(s)),
                    ExecuteResult::Done(b) => ExecuteResult::Done(b),
                };
                (r, Effect::Nothing)
            },
            BuiltinAction::At(state) => {
                let r = match state.poll(now, bindings, events) {
                    ExecuteResult::Pending(s) => ExecuteResult::Pending(BuiltinAction::At(s)),
                    ExecuteResult::Done(b) => ExecuteResult::Done(b),
                };
                (r, Effect::Nothing)
            },
            BuiltinAction::Now(v) => (ExecuteResult::Done(Some(now_bindings(v, now_bits))), Effect::Nothing),
            BuiltinAction::Me(v) => (ExecuteResult::Done(Some(me_bindings(v, aid))), Effect::Nothing),
            BuiltinAction::Forall { query, goal } => (ExecuteResult::Done(None), Effect::Forall { query, goal }),
        }
    }
}

} // verus!
