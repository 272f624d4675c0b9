use bstr::BString;
use ember_bdi::bindings::{AliasMap, Bindings};
use ember_bdi::event::{EventSource, GoalKind, Trigger, TriggeringEvent};
use ember_bdi::intention::{FrameStep, Intention, PendingAction, StepError, StepOk};
use ember_bdi::knowledge::query::{resolve_to_number, ArithmeticExpression, ArithmeticOperator, EvaluationError};
use ember_bdi::knowledge::{Knowledge, KnowledgeBase};
use ember_bdi::literal::Literal;
use ember_bdi::plan::{Action, Execute, ExecuteResult, Formula};
use ember_bdi::term::{Atom, Structure, Term};
use ember_bdi::variable::{Variable, VariableSupply};

fn string(x: &str) -> Term {
    Term::String(BString::from(x))
}

fn number(x: f32) -> Term {
    Term::Number(x.to_bits())
}

fn literal(functor: &str, args: Vec<Term>) -> Literal {
    Literal {
        negated: false,
        structure: Structure { functor: Atom(functor.into()), arguments: if args.is_empty() { None } else { Some(args) } },
    }
}

fn trigger(functor: &str) -> TriggeringEvent {
    TriggeringEvent { trigger: Trigger::Addition, event: literal(functor, vec![]), goal: None }
}

fn bindings(list: Vec<(Variable, Term)>) -> Bindings {
    Bindings::new(list.into_iter().map(|(v, t)| (v.id, Some(t))).collect(), AliasMap::empty())
}

#[derive(Debug, Clone, PartialEq)]
struct LogAction(&'static str);

impl Execute for LogAction {
    type State = Vec<&'static str>;

    fn blocks_intention(&self) -> bool {
        true
    }

    fn should_block_intention(&self) -> bool {
        true
    }

    fn execute(self, _bindings: &Bindings, _knowledge: &KnowledgeBase, state: &mut Self::State) -> ExecuteResult<Self> {
        state.push(self.0);
        ExecuteResult::Done(None)
    }
}

#[derive(Debug, Clone, PartialEq)]
struct CaptureAction(Variable);

impl Execute for CaptureAction {
    type State = Vec<f32>;

    fn blocks_intention(&self) -> bool {
        true
    }

    fn should_block_intention(&self) -> bool {
        true
    }

    fn execute(self, bindings: &Bindings, _knowledge: &KnowledgeBase, state: &mut Self::State) -> ExecuteResult<Self> {
        match bindings.get(&self.0) {
            Some(Term::Number(bits)) => state.push(f32::from_bits(*bits)),
            other => panic!("bound term should be a number: {other:?}"),
        }
        ExecuteResult::Done(None)
    }
}

type Events = Vec<(EventSource, TriggeringEvent)>;
type Actions<A> = Vec<(Option<usize>, PendingAction<A>)>;

// The value of an arithmetic side, in `f32` as the runtime computes it.
fn evaluate(expr: &ArithmeticExpression, bindings: &Bindings) -> Result<f32, EvaluationError> {
    match expr {
        ArithmeticExpression::Term(t) => resolve_to_number(t, bindings).map(f32::from_bits),
        ArithmeticExpression::Operation { operator: ArithmeticOperator::Sum, operands } => {
            let mut sum = 0.0f32;
            for o in operands {
                sum += evaluate(o, bindings)?;
            }
            Ok(sum)
        }
        ArithmeticExpression::Operation { .. } => unreachable!(),
    }
}

fn side(expr: &ArithmeticExpression, bindings: &Bindings) -> Result<Term, EvaluationError> {
    match expr {
        ArithmeticExpression::Term(t) => Ok(t.clone()),
        _ => Ok(number(evaluate(expr, bindings)?)),
    }
}

// Runs the steps that need the caller until the intention's step is over.
fn run_step<A: Execute>(
    intention: &mut Intention<A>,
    knowledge: &mut KnowledgeBase,
    events: &mut Events,
    state: &mut A::State,
) -> Result<StepOk, StepError> {
    match intention.step(knowledge, events) {
        FrameStep::Stepped(r) => r,
        FrameStep::Evaluate(lhs, rhs) => {
            let b = &intention.stack.last().unwrap().bindings;
            let sides = side(&lhs, b).and_then(|l| side(&rhs, b).map(|r| (l, r)));
            intention.finish_unify(sides)
        }
        FrameStep::Run(action) => {
            let b = intention.stack.last().unwrap().bindings.clone();
            let result = match action {
                Action::User(a) => match a.execute(&b, knowledge, state) {
                    ExecuteResult::Pending(a) => ExecuteResult::Pending(Action::User(a)),
                    ExecuteResult::Done(x) => ExecuteResult::Done(x),
                },
                Action::Builtin(_) => ExecuteResult::Done(None),
            };
            let mut actions: Actions<A> = Vec::new();
            intention.finish_action(result, &mut actions)
        }
    }
}

#[test]
fn test_intention_step_empty() {
    let mut intention: Intention<LogAction> = Intention::new(0);
    let mut knowledge = KnowledgeBase::new();
    let mut events: Events = Vec::new();
    assert!(matches!(intention.step(&mut knowledge, &mut events), FrameStep::Stepped(Ok(StepOk::Done))));
}

#[test]
fn test_intention_push_and_step() {
    let mut intention: Intention<LogAction> = Intention::new(0);
    let mut knowledge = KnowledgeBase::new();
    let mut events: Events = Vec::new();
    intention.push(vec![], Bindings::empty(), trigger("event"));
    assert_eq!(intention.stack_len(), 1);
    let result = intention.step(&mut knowledge, &mut events);
    assert!(matches!(result, FrameStep::Stepped(Ok(StepOk::Done))));
    assert_eq!(intention.stack_len(), 0);
}

#[test]
fn test_intention_step_with_actions() {
    let mut intention: Intention<LogAction> = Intention::new(0);
    let mut knowledge = KnowledgeBase::new();
    let mut events: Events = Vec::new();
    let mut state: Vec<&'static str> = Vec::new();
    intention.push(
        vec![Formula::Action(Action::User(LogAction("action1"))), Formula::Action(Action::User(LogAction("action2")))],
        Bindings::empty(),
        trigger("event"),
    );
    let result = run_step(&mut intention, &mut knowledge, &mut events, &mut state);
    assert!(matches!(result, Ok(StepOk::Pending)));
    assert_eq!(state, vec!["action1"]);
    let result = run_step(&mut intention, &mut knowledge, &mut events, &mut state);
    assert!(matches!(result, Ok(StepOk::Done)));
    assert_eq!(state, vec!["action1", "action2"]);
}

#[test]
fn test_intention_step_with_beliefs_and_goals() {
    let mut intention: Intention<LogAction> = Intention::new(0);
    let mut knowledge = KnowledgeBase::new();
    let mut events: Events = Vec::new();
    intention.push(
        vec![
            Formula::Goal { kind: GoalKind::Achieve, goal: literal("goal1", vec![]) },
            Formula::Belief { trigger: Trigger::Addition, belief: literal("belief1", vec![]), silent: false },
        ],
        Bindings::empty(),
        trigger("event"),
    );
    let result = intention.step(&mut knowledge, &mut events);
    assert!(matches!(result, FrameStep::Stepped(Ok(StepOk::Pending))));
    let result = intention.step(&mut knowledge, &mut events);
    assert!(matches!(result, FrameStep::Stepped(Ok(StepOk::Done))));
}

#[test]
fn belief_formula_is_queryable_immediately_after_its_own_step() {
    let mut intention: Intention<LogAction> = Intention::new(0);
    let mut knowledge = KnowledgeBase::new();
    let mut events: Events = Vec::new();
    intention.push(
        vec![Formula::Belief {
            trigger: Trigger::Addition,
            belief: literal("route_active", vec![string("load"), string("c")]),
            silent: false,
        }],
        Bindings::empty(),
        trigger("event"),
    );
    let result = intention.step(&mut knowledge, &mut events);
    assert!(matches!(result, FrameStep::Stepped(Ok(StepOk::Done))));
    assert!(
        knowledge.contains(&Knowledge::from_belief(literal("route_active", vec![string("load"), string("c")]))),
        "belief should already be queryable right after the step that added it"
    );
}

#[test]
fn unify_evaluates_ground_arithmetic_and_binds_the_result() {
    let mut supply = VariableSupply::new();
    let x = Variable::new(&mut supply);
    let mut intention: Intention<CaptureAction> = Intention::new(0);
    let mut knowledge = KnowledgeBase::new();
    let mut events: Events = Vec::new();
    let mut state: Vec<f32> = Vec::new();
    intention.push(
        vec![
            Formula::Unify {
                lhs: ArithmeticExpression::Term(Term::Variable(x)),
                rhs: ArithmeticExpression::Operation {
                    operator: ArithmeticOperator::Sum,
                    operands: vec![ArithmeticExpression::Term(number(2.0)), ArithmeticExpression::Term(number(3.0))],
                },
            },
            Formula::Action(Action::User(CaptureAction(x))),
        ],
        Bindings::empty(),
        trigger("event"),
    );
    let result = run_step(&mut intention, &mut knowledge, &mut events, &mut state);
    assert!(matches!(result, Ok(StepOk::Pending)));
    let result = run_step(&mut intention, &mut knowledge, &mut events, &mut state);
    assert!(matches!(result, Ok(StepOk::Done)));
    assert_eq!(state, vec![5.0]);
}

#[test]
fn unify_falls_back_to_structural_unification_for_non_arithmetic_terms() {
    let mut supply = VariableSupply::new();
    let x = Variable::new(&mut supply);
    let mut intention: Intention<CaptureAction> = Intention::new(0);
    let mut knowledge = KnowledgeBase::new();
    let mut events: Events = Vec::new();
    let mut state: Vec<f32> = Vec::new();
    intention.push(
        vec![
            Formula::Unify { lhs: ArithmeticExpression::Term(Term::Variable(x)), rhs: ArithmeticExpression::Term(number(42.0)) },
            Formula::Action(Action::User(CaptureAction(x))),
        ],
        Bindings::empty(),
        trigger("event"),
    );
    run_step(&mut intention, &mut knowledge, &mut events, &mut state).ok();
    run_step(&mut intention, &mut knowledge, &mut events, &mut state).ok();
    assert_eq!(state, vec![42.0]);
}

#[test]
fn unify_fails_the_step_when_both_sides_are_ground_and_mismatched() {
    let mut intention: Intention<LogAction> = Intention::new(0);
    let mut knowledge = KnowledgeBase::new();
    let mut events: Events = Vec::new();
    intention.push(
        vec![Formula::Unify { lhs: ArithmeticExpression::Term(number(2.0)), rhs: ArithmeticExpression::Term(number(3.0)) }],
        Bindings::empty(),
        trigger("event"),
    );
    let result = intention.step(&mut knowledge, &mut events);
    assert!(matches!(result, FrameStep::Stepped(Err(StepError::UnifyFailed))));
}

#[test]
fn unify_errors_the_step_when_a_compound_expression_is_only_partially_ground() {
    let mut supply = VariableSupply::new();
    let (y, z) = (Variable::new(&mut supply), Variable::new(&mut supply));
    let mut intention: Intention<LogAction> = Intention::new(0);
    let mut knowledge = KnowledgeBase::new();
    let mut events: Events = Vec::new();
    intention.push(
        vec![Formula::Unify {
            lhs: ArithmeticExpression::Term(number(0.0)),
            rhs: ArithmeticExpression::Operation {
                operator: ArithmeticOperator::Sum,
                operands: vec![
                    ArithmeticExpression::Operation {
                        operator: ArithmeticOperator::Sum,
                        operands: vec![ArithmeticExpression::Term(Term::Variable(y)), ArithmeticExpression::Term(number(1.0))],
                    },
                    ArithmeticExpression::Term(Term::Variable(z)),
                ],
            },
        }],
        bindings(vec![(y, number(2.0))]),
        trigger("event"),
    );
    let mut state: Vec<&'static str> = Vec::new();
    let result = run_step(&mut intention, &mut knowledge, &mut events, &mut state);
    assert!(matches!(result, Err(StepError::UnifyEvalError(_))));
}

#[test]
fn belief_and_goal_events_come_from_the_intention() {
    let mut supply = VariableSupply::new();
    let x = Variable::new(&mut supply);
    let mut intention: Intention<LogAction> = Intention::new(7);
    let mut knowledge = KnowledgeBase::new();
    let mut events: Events = Vec::new();
    intention.push(
        vec![
            Formula::Goal { kind: GoalKind::Query, goal: literal("find", vec![Term::Variable(x)]) },
            Formula::Belief { trigger: Trigger::Addition, belief: literal("seen", vec![Term::Variable(x)]), silent: false },
            Formula::Belief { trigger: Trigger::Addition, belief: literal("seen", vec![string("a")]), silent: false },
            Formula::Belief { trigger: Trigger::Deletion, belief: literal("seen", vec![string("a")]), silent: true },
        ],
        bindings(vec![(x, string("a"))]),
        trigger("event"),
    );
    assert!(matches!(intention.step(&mut knowledge, &mut events), FrameStep::Stepped(Ok(StepOk::Pending))));
    assert_eq!(events.len(), 1);
    assert_eq!(events[0].0, EventSource::Internal(7));
    assert_eq!(events[0].1.event, literal("find", vec![string("a")]));
    assert_eq!(events[0].1.goal, Some(GoalKind::Query));
    // the belief resolves to seen("a"), which is new
    assert!(matches!(intention.step(&mut knowledge, &mut events), FrameStep::Stepped(Ok(StepOk::Pending))));
    assert_eq!(events.len(), 2);
    assert_eq!(events[1].1.trigger, Trigger::Addition);
    assert_eq!(events[1].1.event, literal("seen", vec![string("a")]));
    // adding it again changes nothing and raises nothing
    assert!(matches!(intention.step(&mut knowledge, &mut events), FrameStep::Stepped(Ok(StepOk::Pending))));
    assert_eq!(events.len(), 2);
    // a silent removal raises nothing either
    assert!(matches!(intention.step(&mut knowledge, &mut events), FrameStep::Stepped(Ok(StepOk::Done))));
    assert_eq!(events.len(), 2);
    assert!(!knowledge.contains(&Knowledge::from_belief(literal("seen", vec![string("a")]))));
}

#[test]
fn a_belief_with_an_unbound_variable_is_incomplete() {
    let mut supply = VariableSupply::new();
    let x = Variable::new(&mut supply);
    let mut intention: Intention<LogAction> = Intention::new(0);
    let mut knowledge = KnowledgeBase::new();
    let mut events: Events = Vec::new();
    intention.push(
        vec![Formula::Belief { trigger: Trigger::Addition, belief: literal("seen", vec![Term::Variable(x)]), silent: false }],
        Bindings::empty(),
        trigger("event"),
    );
    assert!(matches!(intention.step(&mut knowledge, &mut events), FrameStep::Stepped(Err(StepError::ResolveIncomplete))));
    assert!(events.is_empty());
}

#[test]
fn a_done_frame_hands_its_event_variables_to_the_frame_below() {
    let mut supply = VariableSupply::new();
    let (x, y) = (Variable::new(&mut supply), Variable::new(&mut supply));
    let mut intention: Intention<LogAction> = Intention::new(0);
    let mut knowledge = KnowledgeBase::new();
    let mut events: Events = Vec::new();
    intention.push(vec![Formula::Action(Action::User(LogAction("after")))], Bindings::empty(), trigger("event"));
    let goal = TriggeringEvent { trigger: Trigger::Addition, event: literal("find", vec![Term::Variable(x)]), goal: Some(GoalKind::Achieve) };
    intention.push(
        vec![Formula::Unify { lhs: ArithmeticExpression::Term(Term::Variable(x)), rhs: ArithmeticExpression::Term(string("found")) }],
        bindings(vec![(y, string("private"))]),
        goal,
    );
    let result = intention.step(&mut knowledge, &mut events);
    assert!(matches!(result, FrameStep::Stepped(Ok(StepOk::Pending))));
    assert_eq!(intention.stack_len(), 1);
    let below = &intention.stack[0].bindings;
    assert_eq!(below.get(&x), Some(&string("found")));
    assert_eq!(below.get(&y), None);
}

#[test]
fn a_pending_action_is_dispatched_with_the_frame_bindings() {
    let mut intention: Intention<LogAction> = Intention::new(3);
    let mut knowledge = KnowledgeBase::new();
    let mut events: Events = Vec::new();
    intention.push(vec![Formula::Action(Action::User(LogAction("slow")))], Bindings::empty(), trigger("event"));
    let FrameStep::Run(action) = intention.step(&mut knowledge, &mut events) else {
        panic!("expected an action to run");
    };
    let mut actions: Actions<LogAction> = Vec::new();
    let result = intention.finish_action(ExecuteResult::Pending(action), &mut actions);
    // the action holds the intention, so the frame waits for it even with nothing left
    assert!(matches!(result, Ok(StepOk::Pending)));
    assert_eq!(actions.len(), 1);
    assert_eq!(actions[0].0, Some(3));
    assert!(matches!(&actions[0].1.action, Action::User(LogAction("slow"))));
}
