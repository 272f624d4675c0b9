use ember_bdi::bindings::Bindings;
use ember_bdi::event::{EventSource, Trigger, TriggeringEvent};
use ember_bdi::intention::scheduler::Scheduler;
use ember_bdi::intention::{BlockReasons, Fifo, FrameStep, IntentionQueue, Random, StepError, StepOk};
use ember_bdi::knowledge::KnowledgeBase;
use ember_bdi::literal::Literal;
use ember_bdi::plan::{Action, ExecuteResult, Formula};
use ember_bdi::resolve::ResolveFailure;
use ember_bdi::term::{Atom, Structure};

fn event() -> TriggeringEvent {
    TriggeringEvent {
        trigger: Trigger::Addition,
        event: Literal { negated: false, structure: Structure { functor: Atom("event".into()), arguments: None } },
        goal: None,
    }
}

fn push<S>(queue: &mut IntentionQueue<(), S>, existing: Option<usize>) -> usize {
    let body: Vec<Formula<()>> = vec![];
    queue.push(body, Bindings::empty(), existing, event())
}

fn queue_with_one_intention() -> IntentionQueue<(), Random> {
    let mut queue = IntentionQueue::new(Random::default());
    push(&mut queue, None);
    queue
}

#[test]
fn intention_stays_blocked_until_every_reason_clears() {
    let mut queue = queue_with_one_intention();
    let id = queue.runnable_ids()[0];

    queue.block_on_action(id);
    queue.block_on_event(id);
    assert!(!queue.has_runnable());

    queue.unblock_event(id);
    assert!(!queue.has_runnable(), "the action block is still outstanding");

    queue.unblock_action(id);
    assert!(queue.has_runnable(), "both reasons cleared");
}

#[test]
#[should_panic]
fn unblocking_a_reason_that_was_never_set_panics() {
    let mut queue = queue_with_one_intention();
    let id = queue.runnable_ids()[0];

    queue.unblock_action(id);
}

#[test]
fn push_gives_new_intentions_increasing_ids_and_grows_stacks() {
    let mut queue = IntentionQueue::new(Fifo);
    assert!(queue.is_empty());
    assert_eq!(push(&mut queue, None), 0);
    assert_eq!(push(&mut queue, None), 1);
    assert_eq!(push(&mut queue, Some(0)), 0);
    assert_eq!(queue.intention_stack_len(0), Some(2));
    assert_eq!(queue.intention_stack_len(1), Some(1));
    assert_eq!(queue.intention_stack_len(2), None);
    assert!(!queue.is_empty());
}

#[test]
fn event_blocks_count() {
    let mut queue = IntentionQueue::new(Fifo);
    let id = push(&mut queue, None);
    queue.block_on_event(id);
    queue.block_on_event(id);
    queue.unblock_event(id);
    assert!(!queue.has_runnable());
    queue.unblock_event(id);
    assert!(queue.has_runnable());
}

#[test]
fn fifo_selects_the_oldest_runnable_intention() {
    let mut queue = IntentionQueue::new(Fifo);
    let mut knowledge = KnowledgeBase::new();
    let mut events: Vec<(EventSource, TriggeringEvent)> = Vec::new();
    let a = push(&mut queue, None);
    let b = push(&mut queue, None);
    let c = push(&mut queue, None);
    push(&mut queue, Some(c));
    assert_eq!(queue.runnable_ids(), vec![a, b, c]);
    assert_eq!(queue.select_next(), Some(a));
    queue.block_on_action(a);
    assert_eq!(queue.select_next(), Some(b));
    // b's only plan has an empty body: one step completes it, and it is gone
    assert!(matches!(queue.step(&mut knowledge, &mut events), Some((id, FrameStep::Stepped(Ok(StepOk::Done)))) if id == b));
    assert_eq!(queue.runnable_ids(), vec![c]);
    // c has two plans: the top one completes and hands over to the one below
    assert!(matches!(queue.step(&mut knowledge, &mut events), Some((id, FrameStep::Stepped(Ok(StepOk::Pending)))) if id == c));
    assert_eq!(queue.intention_stack_len(c), Some(1));
    assert_eq!(queue.select_next(), Some(c));
    queue.block_on_event(c);
    assert_eq!(queue.select_next(), None);
    assert!(queue.step(&mut knowledge, &mut events).is_none());
}

#[test]
fn random_scheduler_draws_from_xorshift() {
    let mut r = Random::default();
    let mut x: u64 = 0x9E3779B97F4A7C15;
    x ^= x << 13;
    x ^= x >> 7;
    x ^= x << 17;
    assert_eq!(r.next_u64(), x);
}

#[test]
fn random_scheduler_picks_a_candidate() {
    let mut r = Random::default();
    assert_eq!(r.select_intention(&vec![]), None);
    assert_eq!(r.select_intention(&vec![7]), Some(7));
    let picked = r.select_intention(&vec![1, 2, 3, 4]).unwrap();
    assert!([1, 2, 3, 4].contains(&picked));
}

#[test]
fn random_reservoir_follows_the_draws() {
    let mut r = Random::default();
    let mut probe = Random::default();
    let d1 = probe.next_u64();
    let d2 = probe.next_u64();
    let d3 = probe.next_u64();
    let mut expected = None;
    if d1 % 1 == 0 {
        expected = Some(10);
    }
    if d2 % 2 == 0 {
        expected = Some(20);
    }
    if d3 % 3 == 0 {
        expected = Some(30);
    }
    assert_eq!(r.select_intention(&vec![10, 20, 30]), expected);
}

#[test]
fn step_results_and_errors() {
    assert_eq!(StepOk::done(), Ok(StepOk::Done));
    assert_eq!(StepOk::pending(), Ok(StepOk::Pending));
    let e: StepError = ResolveFailure::IncorrectKind.into();
    assert_eq!(e, StepError::ResolveFailure(ResolveFailure::IncorrectKind));
    assert_eq!(StepError::ResolveIncomplete.message(), "frame step error: resolve incomplete");
    assert!(BlockReasons { pending_events: 1, pending_action: false }.is_blocked());
    assert!(!BlockReasons::default().is_blocked());
}

#[derive(Debug)]
struct Ping;

impl ember_bdi::plan::Execute for Ping {
    type State = ();

    fn blocks_intention(&self) -> bool {
        true
    }

    fn should_block_intention(&self) -> bool {
        true
    }

    fn execute(self, _bindings: &Bindings, _knowledge: &KnowledgeBase, _state: &mut ()) -> ExecuteResult<Self> {
        ExecuteResult::Done(None)
    }
}

#[test]
fn a_queued_intention_runs_its_action_and_is_gone_when_done() {
    let mut queue: IntentionQueue<Ping, Fifo> = IntentionQueue::new(Fifo);
    let mut knowledge = KnowledgeBase::new();
    let mut events: Vec<(EventSource, TriggeringEvent)> = Vec::new();
    let id = queue.push(vec![Formula::Action(Action::User(Ping))], Bindings::empty(), None, event());
    let Some((stepped, FrameStep::Run(Action::User(Ping)))) = queue.step(&mut knowledge, &mut events) else {
        panic!("the intention's action is to be run");
    };
    assert_eq!(stepped, id);
    let mut actions = Vec::new();
    assert_eq!(queue.finish_action(id, ExecuteResult::Done(None), &mut actions), Ok(StepOk::Done));
    assert!(actions.is_empty());
    assert!(queue.is_empty());
}
