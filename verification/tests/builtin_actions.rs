use bstr::BString;
use ember_bdi::bindings::{AliasMap, Bindings};
use ember_bdi::event::{GoalKind, Trigger, TriggeringEvent};
use ember_bdi::knowledge::answers::Evaluate;
use ember_bdi::knowledge::query::{ArithmeticExpression, EvaluationError, QueryFormula};
use ember_bdi::knowledge::{Knowledge, KnowledgeBase};
use ember_bdi::plan::{forall_goals, BuiltinAction, Effect, ExecuteResult, LogLevel, VariableOrReceiver};
use ember_bdi::term::conversion::{aid_from_term, ConversionError, FromTermError};
use ember_bdi::term::{Atom, Structure, Term};
use ember_bdi::literal::Literal;
use ember_bdi::variable::{Variable, VariableSupply};

fn string(x: &str) -> Term {
    Term::String(BString::from(x))
}

fn literal(functor: &str, args: Vec<Term>) -> Literal {
    Literal {
        negated: false,
        structure: Structure { functor: Atom(functor.into()), arguments: if args.is_empty() { None } else { Some(args) } },
    }
}

fn bindings(list: Vec<(Variable, Term)>) -> Bindings {
    Bindings::new(list.into_iter().map(|(v, t)| (v.id, Some(t))).collect(), AliasMap::empty())
}

fn variable() -> Variable {
    let mut supply = VariableSupply::new();
    Variable::new(&mut supply)
}

const AID: &str = "test-agent@local";

fn run(action: BuiltinAction, bindings: &Bindings, now: u64, events: &mut Vec<TriggeringEvent>) -> (ExecuteResult<BuiltinAction>, Effect) {
    action.execute(bindings, now, 1234.0f32.to_bits(), AID, events)
}

#[test]
fn test_log_resolves_bound_variables_and_completes_immediately_without_side_effects() {
    let var = variable();
    let b = bindings(vec![(var, string("kitchen"))]);
    let mut events = Vec::new();
    let (result, effect) = run(BuiltinAction::Log(LogLevel::Info, vec![Term::Variable(var)]), &b, 0, &mut events);
    assert!(matches!(result, ExecuteResult::Done(None)));
    assert!(events.is_empty());
    match effect {
        Effect::Log(LogLevel::Info, terms) => assert_eq!(terms, vec![string("kitchen")]),
        other => panic!("expected a log effect, got {other:?}"),
    }
}

#[test]
fn test_log_completes_immediately_even_when_a_term_fails_to_resolve() {
    let var = variable();
    let mut events = Vec::new();
    let (result, _) = run(BuiltinAction::Log(LogLevel::Info, vec![Term::Variable(var)]), &bindings(vec![]), 0, &mut events);
    assert!(matches!(result, ExecuteResult::Done(None)));
}

#[test]
fn test_stop_platform_sets_the_environment_stop_flag_and_completes_immediately() {
    let mut events = Vec::new();
    let (result, effect) = run(BuiltinAction::StopPlatform, &bindings(vec![]), 0, &mut events);
    assert!(matches!(result, ExecuteResult::Done(None)));
    assert!(matches!(effect, Effect::StopPlatform), ".stop_platform must ask to stop the platform");
}

#[test]
fn test_wait_stays_pending_until_interval_elapses_then_completes() {
    let b = bindings(vec![]);
    let mut events = Vec::new();
    let ExecuteResult::Pending(action) = run(BuiltinAction::wait(0), &b, 10, &mut events).0 else {
        panic!("the first poll only records the start time and must stay pending");
    };
    let (result, _) = run(action, &b, 10, &mut events);
    assert!(matches!(result, ExecuteResult::Done(None)), "a zero-length wait must complete on its second poll");
}

#[test]
fn wait_stays_pending_before_its_interval() {
    let b = bindings(vec![]);
    let mut events = Vec::new();
    let ExecuteResult::Pending(action) = run(BuiltinAction::wait(100), &b, 10, &mut events).0 else {
        panic!("the first poll must stay pending");
    };
    let ExecuteResult::Pending(action) = run(action, &b, 109, &mut events).0 else {
        panic!("99 ms after the start the wait is not over");
    };
    assert!(matches!(run(action, &b, 110, &mut events).0, ExecuteResult::Done(None)));
}

#[test]
fn test_now_binds_current_millis_to_the_given_variable() {
    let var = variable();
    let mut events = Vec::new();
    let ExecuteResult::Done(Some(result)) = run(BuiltinAction::Now(var), &bindings(vec![]), 0, &mut events).0 else {
        panic!(".now must complete immediately with bindings");
    };
    assert_eq!(result.get_view(&var), Some(&Term::Number(1234.0f32.to_bits())));
}

#[test]
fn test_me_binds_the_agents_fully_qualified_aid_to_the_given_variable() {
    let var = variable();
    let mut events = Vec::new();
    let ExecuteResult::Done(Some(result)) = run(BuiltinAction::Me(var), &bindings(vec![]), 0, &mut events).0 else {
        panic!(".me must complete immediately with bindings");
    };
    assert_eq!(result.get_view(&var), Some(&string("test-agent@local")));
}

#[test]
fn test_variable_or_receiver_resolves_bound_variable_to_receiver() {
    let var = variable();
    let b = bindings(vec![(var, string("receiver-agent@local"))]);
    let resolved = VariableOrReceiver::Variable(var).resolve(&b).expect("should resolve");
    assert!(matches!(resolved, VariableOrReceiver::Receiver(s) if s == "receiver-agent@local"));
}

#[test]
fn test_variable_or_receiver_leaves_unbound_variable_unresolved() {
    let var = variable();
    let resolved = VariableOrReceiver::Variable(var).resolve(&bindings(vec![])).expect("should resolve");
    assert!(matches!(resolved, VariableOrReceiver::Variable(v) if v == var));
}

#[test]
fn test_variable_or_receiver_resolves_receiver_unchanged() {
    let resolved =
        VariableOrReceiver::Receiver("receiver-agent@local".to_string()).resolve(&bindings(vec![])).expect("should resolve");
    assert!(matches!(resolved, VariableOrReceiver::Receiver(s) if s == "receiver-agent@local"));
}

#[test]
fn a_receiver_bound_to_a_number_is_refused() {
    let var = variable();
    let b = bindings(vec![(var, Term::Number(1.0f32.to_bits()))]);
    let err = VariableOrReceiver::Variable(var).resolve(&b).err().expect("a number names no receiver");
    assert_eq!(err, FromTermError::InvalidType(Some("aid string <agent-name@platform-address>")));
}

#[test]
fn test_variable_or_receiver_fails_when_bound_value_is_not_an_aid() {
    let var = variable();
    let b = bindings(vec![(var, string("not-an-aid"))]);
    let err = VariableOrReceiver::Variable(var).resolve(&b).err().expect("text without an @ names no agent");
    assert!(matches!(err, FromTermError::IncorrectConversion(ConversionError::InvalidAid(_))));
}

#[test]
fn test_aid_from_term_parses_local_aid_string() {
    let aid = aid_from_term(&string("receiver-agent@local")).expect("should parse");
    assert_eq!(aid, "receiver-agent@local");
}

#[test]
fn test_aid_from_term_parses_general_aid_string() {
    let aid = aid_from_term(&string("receiver-agent@some-platform")).expect("should parse");
    assert_eq!(aid, "receiver-agent@some-platform");
}

#[test]
fn test_aid_from_term_rejects_malformed_aid_string() {
    let err = aid_from_term(&string("no-at-sign")).unwrap_err();
    assert!(matches!(err, FromTermError::IncorrectConversion(ConversionError::InvalidAid(_))));
}

#[test]
fn test_aid_from_term_rejects_non_string_term() {
    let err = aid_from_term(&Term::Number(1.0f32.to_bits())).unwrap_err();
    assert!(matches!(err, FromTermError::InvalidType(_)));
}

#[test]
fn test_aid_from_term_rejects_literal_term() {
    let err = aid_from_term(&Term::Literal(literal("receiver-agent", vec![]))).unwrap_err();
    assert!(matches!(err, FromTermError::InvalidType(_)));
}

#[test]
fn an_aid_that_is_not_utf8_is_refused_as_such() {
    let err = aid_from_term(&Term::String(BString::from(vec![0x61u8, 0x40, 0xff]))).unwrap_err();
    assert_eq!(err, FromTermError::IncorrectConversion(ConversionError::InvalidUtf8));
}

#[test]
fn resolves_a_bound_variable_receiver_and_pushes_an_inform_message() {
    let receiver_var = variable();
    let b = bindings(vec![(receiver_var, string("receiver-agent@local"))]);
    let mut events = Vec::new();
    let action = BuiltinAction::SendLiteral(VariableOrReceiver::Variable(receiver_var), Trigger::Addition, literal("ack", vec![]));
    let (result, effect) = run(action, &b, 0, &mut events);
    assert!(matches!(result, ExecuteResult::Done(None)));
    match effect {
        Effect::Send { inform, receiver, .. } => {
            assert!(inform);
            assert_eq!(receiver, "receiver-agent@local");
        }
        other => panic!("expected a send, got {other:?}"),
    }
}

#[test]
fn deletion_trigger_maps_to_the_not_understood_performative() {
    let mut events = Vec::new();
    let action = BuiltinAction::SendLiteral(
        VariableOrReceiver::Receiver("receiver-agent@local".to_string()),
        Trigger::Deletion,
        literal("ack", vec![]),
    );
    let (_, effect) = run(action, &bindings(vec![]), 0, &mut events);
    assert!(matches!(effect, Effect::Send { inform: false, .. }));
}

#[test]
fn resolves_the_literals_arguments_against_the_calling_frames_bindings() {
    let var = variable();
    let b = bindings(vec![(var, string("kitchen"))]);
    let mut events = Vec::new();
    let action = BuiltinAction::SendLiteral(
        VariableOrReceiver::Receiver("receiver-agent@local".to_string()),
        Trigger::Addition,
        literal("location", vec![Term::Variable(var)]),
    );
    let (_, effect) = run(action, &b, 0, &mut events);
    let Effect::Send { literal: sent, .. } = effect else {
        panic!("expected a send");
    };
    assert_eq!(sent.structure.functor.0, "location");
    assert_eq!(sent, literal("location", vec![string("kitchen")]));
}

#[test]
fn leaves_the_outbox_empty_when_the_receiver_fails_to_resolve() {
    let mut events = Vec::new();
    let action = BuiltinAction::SendLiteral(VariableOrReceiver::Variable(variable()), Trigger::Addition, literal("ack", vec![]));
    let (result, effect) = run(action, &bindings(vec![]), 0, &mut events);
    assert!(matches!(result, ExecuteResult::Done(None)));
    assert!(matches!(effect, Effect::LogError(_)));
}

#[test]
fn first_poll_completes_immediately_and_requeues_non_blocking() {
    let action = BuiltinAction::at(3_600_000, literal("check_again", vec![]));
    assert!(!action.should_block_intention());
    let mut events = Vec::new();
    let (result, _) = run(action, &bindings(vec![]), 0, &mut events);
    assert!(matches!(result, ExecuteResult::Pending(_)));
    assert!(events.is_empty());
}

#[test]
fn requeued_copy_stays_pending_until_delay_elapses() {
    let b = bindings(vec![]);
    let mut events = Vec::new();
    let ExecuteResult::Pending(requeued) = run(BuiltinAction::at(3_600_000, literal("check_again", vec![])), &b, 0, &mut events).0 else {
        unreachable!()
    };
    let (result, _) = run(requeued, &b, 1, &mut events);
    assert!(matches!(result, ExecuteResult::Pending(_)));
    assert!(events.is_empty());
}

#[test]
fn fires_exactly_one_achieve_event_once_delay_elapses() {
    let b = bindings(vec![]);
    let mut events = Vec::new();
    let ExecuteResult::Pending(requeued) = run(BuiltinAction::at(0, literal("check_again", vec![])), &b, 5, &mut events).0 else {
        unreachable!()
    };
    let (result, _) = run(requeued, &b, 5, &mut events);
    assert!(matches!(result, ExecuteResult::Done(None)));
    assert_eq!(events.len(), 1);
    assert_eq!(events[0].trigger, Trigger::Addition);
    assert_eq!(events[0].goal, Some(GoalKind::Achieve));
    assert_eq!(events[0].event, literal("check_again", vec![]));
}

#[test]
fn resolves_the_goal_against_the_calling_frames_bindings() {
    let var = variable();
    let b = bindings(vec![(var, string("kitchen"))]);
    let mut events = Vec::new();
    let ExecuteResult::Pending(requeued) =
        run(BuiltinAction::at(0, literal("go_to", vec![Term::Variable(var)])), &b, 0, &mut events).0
    else {
        unreachable!()
    };
    run(requeued, &b, 0, &mut events);
    assert_eq!(events[0].event, literal("go_to", vec![string("kitchen")]));
}

#[test]
fn every_builtin_but_at_holds_the_intention() {
    assert!(BuiltinAction::StopPlatform.should_block_intention());
    assert!(BuiltinAction::wait(1).should_block_intention());
    assert!(BuiltinAction::Now(variable()).should_block_intention());
    assert!(!BuiltinAction::at(1, literal("x", vec![])).should_block_intention());
}

struct NoArithmetic;

impl Evaluate for NoArithmetic {
    fn evaluate(&self, _expr: &ArithmeticExpression, _bindings: &Bindings) -> Result<u32, EvaluationError> {
        Err(EvaluationError::TypeMismatch)
    }
}

fn assert_belief(kb: &mut KnowledgeBase, functor: &str, args: Vec<Term>) {
    kb.assert_no_event(Knowledge::from_belief(literal(functor, args)));
}

// Runs `.forall` under the bindings: how it went, and the goals it raises.
fn run_forall(action: BuiltinAction, b: &Bindings, knowledge: &KnowledgeBase) -> (ExecuteResult<BuiltinAction>, Vec<TriggeringEvent>) {
    let mut events = Vec::new();
    let (result, effect) = run(action, b, 0, &mut events);
    assert!(events.is_empty(), ".forall raises its goals through its effect");
    let goals = match effect {
        Effect::Forall { query, goal } => forall_goals(&query, &goal, b, knowledge, 16, &NoArithmetic),
        other => panic!("expected a forall effect, got {other:?}"),
    };
    (result, goals)
}

fn sorted(goals: Vec<Literal>) -> Vec<String> {
    let mut v: Vec<String> = goals.iter().map(|l| format!("{l:?}")).collect();
    v.sort();
    v
}

#[test]
fn no_solutions_emits_no_events_and_completes_immediately() {
    let knowledge = KnowledgeBase::new();
    let x = variable();
    let action = BuiltinAction::Forall {
        query: QueryFormula::Literal(literal("item", vec![Term::Variable(x)])),
        goal: literal("process", vec![Term::Variable(x)]),
    };
    let (result, goals) = run_forall(action, &bindings(vec![]), &knowledge);
    assert!(matches!(result, ExecuteResult::Done(None)), "forall never stays pending");
    assert!(goals.is_empty(), "no solutions means no goals are spawned");
}

#[test]
fn spawns_one_fire_and_forget_achieve_event_per_solution() {
    let mut knowledge = KnowledgeBase::new();
    assert_belief(&mut knowledge, "item", vec![string("a")]);
    assert_belief(&mut knowledge, "item", vec![string("b")]);
    assert_belief(&mut knowledge, "item", vec![string("c")]);
    let x = variable();
    let action = BuiltinAction::Forall {
        query: QueryFormula::Literal(literal("item", vec![Term::Variable(x)])),
        goal: literal("process", vec![Term::Variable(x)]),
    };
    let (result, goals) = run_forall(action, &bindings(vec![]), &knowledge);
    assert!(matches!(result, ExecuteResult::Done(None)));
    assert_eq!(goals.len(), 3, "one goal event per solution");
    for event in &goals {
        assert_eq!(event.trigger, Trigger::Addition);
        assert_eq!(event.goal, Some(GoalKind::Achieve));
    }
    let expected = vec![
        literal("process", vec![string("a")]),
        literal("process", vec![string("b")]),
        literal("process", vec![string("c")]),
    ];
    assert_eq!(sorted(goals.into_iter().map(|e| e.event).collect()), sorted(expected));
}

#[test]
fn each_solution_keeps_its_own_variables_without_mixing_with_others() {
    let mut knowledge = KnowledgeBase::new();
    assert_belief(&mut knowledge, "pair", vec![string("a"), string("1")]);
    assert_belief(&mut knowledge, "pair", vec![string("b"), string("2")]);
    let mut supply = VariableSupply::new();
    let (x, y) = (Variable::new(&mut supply), Variable::new(&mut supply));
    let action = BuiltinAction::Forall {
        query: QueryFormula::Literal(literal("pair", vec![Term::Variable(x), Term::Variable(y)])),
        goal: literal("process", vec![Term::Variable(x), Term::Variable(y)]),
    };
    let (result, goals) = run_forall(action, &bindings(vec![]), &knowledge);
    assert!(matches!(result, ExecuteResult::Done(None)));
    let expected = vec![literal("process", vec![string("a"), string("1")]), literal("process", vec![string("b"), string("2")])];
    assert_eq!(
        sorted(goals.into_iter().map(|e| e.event).collect()),
        sorted(expected),
        "no solution's goal may combine X from one pair with Y from another"
    );
}

#[test]
fn goal_sees_both_the_calling_frames_bindings_and_the_querys_bindings() {
    let mut knowledge = KnowledgeBase::new();
    assert_belief(&mut knowledge, "item", vec![string("a")]);
    assert_belief(&mut knowledge, "item", vec![string("b")]);
    let mut supply = VariableSupply::new();
    let (x, room) = (Variable::new(&mut supply), Variable::new(&mut supply));
    let b = bindings(vec![(room, string("kitchen"))]);
    let action = BuiltinAction::Forall {
        query: QueryFormula::Literal(literal("item", vec![Term::Variable(x)])),
        goal: literal("process", vec![Term::Variable(x), Term::Variable(room)]),
    };
    let (result, goals) = run_forall(action, &b, &knowledge);
    assert!(matches!(result, ExecuteResult::Done(None)));
    let expected = vec![literal("process", vec![string("a"), string("kitchen")]), literal("process", vec![string("b"), string("kitchen")])];
    assert_eq!(sorted(goals.into_iter().map(|e| e.event).collect()), sorted(expected));
}

#[test]
fn execute_result_map_applies_to_what_has_more_to_do() {
    let pending: ExecuteResult<u32> = ExecuteResult::Pending(2);
    assert!(matches!(pending.map(|x| x + 1), ExecuteResult::Pending(3)));
    let done: ExecuteResult<u32> = ExecuteResult::Done(None);
    assert!(matches!(done.map(|x| x + 1), ExecuteResult::Done(None)));
}
