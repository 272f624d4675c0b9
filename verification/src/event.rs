//! Events: what triggers plans, where events come from, and the queue of events waiting to
//! be handled.

use std::collections::VecDeque;

use vstd::prelude::*;
use vstd::string::StringExecFns;

use crate::intention::IntentionId;
use crate::literal::Literal;
use crate::bytestring::bstring_from_slice;
use crate::term::{Atom, LiteralModel, Structure, StructureModel, Term, TermModel};

verus! {

/// Whether something was added or removed.
#[derive(Debug, Clone, Copy, PartialEq, Eq, Structural, PartialOrd, Ord)]
pub enum Trigger {
    Addition,
    Deletion,
}

/// The kind of a goal.
#[derive(Debug, Clone, Copy, PartialEq, Eq, Structural, PartialOrd, Ord)]
pub enum GoalKind {
    Achieve,
    Query,
}

/// Where an event comes from.
#[derive(Debug, Clone, Copy, PartialEq, Eq, Structural, PartialOrd, Ord)]
pub enum EventSource {
    /// Fired by the execution of an intention.
    Internal(IntentionId),
    /// Generated by an interaction with the outside.
    External,
}

/// An event: a literal added or removed, as a belief or as a goal.
#[derive(Debug)]
pub struct TriggeringEvent {
    pub trigger: Trigger,
    pub event: Literal,
    pub goal: Option<GoalKind>,
}

impl View for TriggeringEvent {
    type V = (Trigger, LiteralModel, Option<GoalKind>);

    open spec fn view(&self) -> (Trigger, LiteralModel, Option<GoalKind>) {
        (self.trigger, self.event@, self.goal)
    }
}

impl Clone for TriggeringEvent {
    fn clone(&self) -> (r: Self)
        ensures
            r@ == self@,
    {
        TriggeringEvent { trigger: self.trigger, event: self.event.clone(), goal: self.goal }
    }
}

/// Decides which queued event is handled next: the first one it accepts.
pub trait EventSelector {
    /// Whether the selector accepts every event; a selector claims so only where it does.
    open spec fn accepts_every_event() -> bool {
        false
    }

    /// Whether the event is to be handled now.
    fn should_process_event(&mut self, event: &TriggeringEvent, source: &EventSource) -> (r: bool)
        ensures
            Self::accepts_every_event() ==> r,
    ;
}

/// Handles the events in the order they came.
#[derive(Debug, Default, Clone, Copy)]
pub struct FirstEvent;

impl EventSelector for FirstEvent {
    open spec fn accepts_every_event() -> bool {
        true
    }

    fn should_process_event(&mut self, event: &TriggeringEvent, source: &EventSource) -> (r: bool) {
        true
    }
}

/// What is left of the queue when the event at `i` is taken out and the first event takes
/// its place.
pub open spec fn swap_remove_front<T>(s: Seq<T>, i: int) -> Seq<T> {
    if i == 0 {
        s.drop_first()
    } else {
        s.subrange(1, i) + seq![s[0]] + s.subrange(i + 1, s.len() as int)
    }
}

/// Events waiting to be handled. Those that came after the last handled one are in the
/// order they came; the order of those before it is unspecified.
#[derive(Debug)]
pub struct EventQueue<Sel> {
    queue: VecDeque<(TriggeringEvent, EventSource)>,
    selector: Sel,
}

impl<Sel> EventQueue<Sel> {
    /// The queued events with their sources.
    pub closed spec fn events(&self) -> Seq<((Trigger, LiteralModel, Option<GoalKind>), EventSource)> {
        self.queue@.map_values(|e: (TriggeringEvent, EventSource)| (e.0@, e.1))
    }

    /// No event, with the given selector.
    pub fn new(selector: Sel) -> (r: Self)
        ensures
            r.events() == Seq::<((Trigger, LiteralModel, Option<GoalKind>), EventSource)>::empty(),
    {
        let r = EventQueue { queue: VecDeque::new(), selector };
        assert(r.events() =~= Seq::<((Trigger, LiteralModel, Option<GoalKind>), EventSource)>::empty());
        r
    }

    /// How many events are queued.
    pub fn len(&self) -> (r: usize)
        ensures
            r == self.events().len(),
    {
        self.queue.len()
    }

    /// Queues an event at the back.
    pub fn push(&mut self, event: TriggeringEvent, source: EventSource)
        ensures
            final(self).events() == old(self).events().push((event@, source)),
    {
        let ghost ev = event@;
        self.queue.push_back((event, source));
        assert(self.events() =~= old(self).events().push((ev, source)));
    }

    /// Replaces the selector.
    pub fn with_event_selector<NewSel>(self, selector: NewSel) -> (r: EventQueue<NewSel>)
        ensures
            r.events() == self.events(),
    {
        EventQueue { queue: self.queue, selector }
    }

    /// Takes out the event at `idx`; the first event takes its place.
    fn take_event(&mut self, idx: usize) -> (r: (TriggeringEvent, EventSource))
        requires
            idx < old(self).events().len(),
        ensures
            (r.0@, r.1) == old(self).events()[idx as int],
            final(self).events() == swap_remove_front(old(self).events(), idx as int),
    {
        let ghost s = self.queue@;
        let ghost es = self.events();
        if idx == 0 {
            let r = self.queue.pop_front().unwrap();
            assert(self.events() =~= swap_remove_front(es, 0));
            r
        } else {
            let front = self.queue.pop_front().unwrap();
            let target = self.queue.remove(idx - 1).unwrap();
            self.queue.insert(idx - 1, front);
            proof {
                assert(self.queue@ =~= s.subrange(1, idx as int) + seq![s[0]] + s.subrange(idx + 1, s.len() as int));
                assert(self.events() =~= swap_remove_front(es, idx as int));
            }
            target
        }
    }
}

impl<Sel: EventSelector> EventQueue<Sel> {
    /// The first queued event the selector accepts, taken out of the queue; the first event
    /// takes its place. A selector that accepts every event gets the first one.
    pub fn next_event(&mut self) -> (r: Option<(TriggeringEvent, EventSource)>)
        ensures
            r is None ==> final(self).events() == old(self).events(),
            r matches Some(e) ==> exists|i: int|
                0 <= i < old(self).events().len() && old(self).events()[i] == (e.0@, e.1) && final(self).events() == swap_remove_front(old(self).events(), i)
                    && (Sel::accepts_every_event() ==> i == 0),
            Sel::accepts_every_event() ==> (r is None <==> old(self).events().len() == 0),
    {
        let mut i: usize = 0;
        while i < self.queue.len()
            invariant
                i <= self.queue@.len(),
                self.events() == old(self).events(),
                Sel::accepts_every_event() ==> i == 0,
            decreases self.queue@.len() - i,
        {
            let accept = self.selector.should_process_event(&self.queue[i].0, &self.queue[i].1);
            if accept {
                let ghost es = self.events();
                let e = self.take_event(i);
                return Some(e);
            }
            i += 1;
        }
        None
    }
}


/// The event a received message raises: a request runs its literal as a goal to
/// achieve; any other message adds the belief `message(performative, literal)`.
/// A run of the queue from the events `q`, with a selector that accepts every event: each
/// `Some(e)` pushes `e` and each `None` takes the next event, if any. What it comes to:
/// the events taken, in order, and the events left.
pub open spec fn queue_run<T>(q: Seq<T>, ops: Seq<Option<T>>) -> (Seq<T>, Seq<T>)
    decreases ops.len(),
{
    if ops.len() == 0 {
        (Seq::empty(), q)
    } else {
        let (taken, left) = queue_run(q, ops.drop_last());
        match ops.last() {
            Some(e) => (taken, left.push(e)),
            None => if left.len() == 0 {
                (taken, left)
            } else {
                (taken.push(left[0]), swap_remove_front(left, 0))
            },
        }
    }
}

/// The events a run pushes, in order.
pub open spec fn pushed_events<T>(ops: Seq<Option<T>>) -> Seq<T>
    decreases ops.len(),
{
    if ops.len() == 0 {
        Seq::empty()
    } else {
        match ops.last() {
            Some(e) => pushed_events(ops.drop_last()).push(e),
            None => pushed_events(ops.drop_last()),
        }
    }
}

/// The queue is first in, first out: over any run of pushes and takes with a selector that
/// accepts every event (each step as [`EventQueue::push`] and [`EventQueue::next_event`]
/// state it), the events taken followed by those left are the events there were followed
/// by those pushed, in the order they came.
pub proof fn lemma_queue_first_in_first_out<T>(q: Seq<T>, ops: Seq<Option<T>>)
    ensures
        queue_run(q, ops).0 + queue_run(q, ops).1 == q + pushed_events(ops),
    decreases ops.len(),
{
    if ops.len() > 0 {
        lemma_queue_first_in_first_out(q, ops.drop_last());
        let (taken, left) = queue_run(q, ops.drop_last());
        match ops.last() {
            Some(e) => {
                assert(taken + left.push(e) =~= (taken + left).push(e));
            },
            None => {
                if left.len() > 0 {
                    assert(taken.push(left[0]) + left.drop_first() =~= taken + left);
                }
            },
        }
    }
}

pub open spec fn message_event_model(is_request: bool, performative: Seq<char>, literal: LiteralModel) -> (Trigger, LiteralModel, Option<GoalKind>) {
    if is_request {
        (Trigger::Addition, literal, Some(GoalKind::Achieve))
    } else {
        (
            Trigger::Addition,
            LiteralModel {
                negated: false,
                structure: StructureModel {
                    functor: "message"@,
                    arguments: Some(seq![TermModel::String(vstd::utf8::encode_utf8(performative)), TermModel::Literal(literal)]),
                },
            },
            None,
        )
    }
}

/// A request raises the goal to achieve its literal; any other message raises the addition
/// of the belief `message(P, L)`, whose first argument is the performative `P` as a string
/// and whose second is the literal `L` received.
pub proof fn lemma_message_event_shape(performative: Seq<char>, literal: LiteralModel)
    ensures
        message_event_model(true, performative, literal) == (Trigger::Addition, literal, Some(GoalKind::Achieve)),
        message_event_model(false, performative, literal).0 == Trigger::Addition,
        message_event_model(false, performative, literal).2 is None,
        !message_event_model(false, performative, literal).1.negated,
        message_event_model(false, performative, literal).1.structure.functor == "message"@,
        message_event_model(false, performative, literal).1.structure.arguments
            == Some(seq![TermModel::String(vstd::utf8::encode_utf8(performative)), TermModel::Literal(literal)]),
{
}

/// The event a received message with the given performative and literal raises.
pub fn message_event(is_request: bool, performative: &str, literal: Literal) -> (r: TriggeringEvent)
    ensures
        r@ == message_event_model(is_request, performative@, literal@),
        is_request ==> r.trigger == Trigger::Addition && r.goal == Some(GoalKind::Achieve) && r.event@ == literal@,
        !is_request ==> {
            &&& r.trigger == Trigger::Addition
            &&& r.goal is None
            &&& !r.event.negated
            &&& r.event.structure@.functor == "message"@
            &&& r.event.structure@.arguments == Some(seq![TermModel::String(vstd::utf8::encode_utf8(performative@)), TermModel::Literal(literal@)])
        },
{
    if is_request {
        return TriggeringEvent { trigger: Trigger::Addition, event: literal, goal: Some(GoalKind::Achieve) };
    }
    let ghost lv = literal@;
    let name = bstring_from_slice(performative.as_bytes());
    let args = vec![Term::String(name), Term::Literal(literal)];
    let functor = Atom(String::from_str("message"));
    let structure = Structure { functor, arguments: Some(args) };
    proof {
        assert(crate::term::terms_model(args@) =~= seq![TermModel::String(vstd::utf8::encode_utf8(performative@)), TermModel::Literal(lv)]);
    }
    let event = Literal { negated: false, structure };
    TriggeringEvent { trigger: Trigger::Addition, event, goal: None }
}

} // verus!
