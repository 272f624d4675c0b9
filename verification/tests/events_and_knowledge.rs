use bstr::BString;
use ember_bdi::context::{budgeted, PureContext, TickBudget};
use ember_bdi::event::{EventQueue, EventSelector, EventSource, FirstEvent, GoalKind, Trigger, TriggeringEvent};
use ember_bdi::knowledge::query::{
    resolve_to_number, ArithmeticExpression, ArithmeticOperator, CompareOperator, EvaluationError, LogicalOperator,
    QueryFormula, RelationalOperator, RelationalQueryFormula,
};
use ember_bdi::knowledge::{Knowledge, KnowledgeBase};
use ember_bdi::bindings::{AliasMap, Bindings};
use ember_bdi::literal::Literal;
use ember_bdi::plan::{FirstApplicable, Plan, PlanSelector};
use ember_bdi::term::conversion::{bstring_from_term, number_from_term, string_from_term, ConversionError, FromTermError};
use ember_bdi::term::{Atom, Structure, Term};
use ember_bdi::variable::{Variable, VariableId};

fn literal(functor: &str, args: Vec<Term>) -> Literal {
    Literal {
        negated: false,
        structure: Structure { functor: Atom(functor.into()), arguments: if args.is_empty() { None } else { Some(args) } },
    }
}

fn event(functor: &str) -> TriggeringEvent {
    TriggeringEvent { trigger: Trigger::Addition, event: literal(functor, vec![]), goal: Some(GoalKind::Achieve) }
}

struct OnlyInternal;

impl EventSelector for OnlyInternal {
    fn should_process_event(&mut self, _event: &TriggeringEvent, source: &EventSource) -> bool {
        matches!(source, EventSource::Internal(_))
    }
}

#[test]
fn first_event_handles_events_in_order() {
    let mut q = EventQueue::new(FirstEvent);
    q.push(event("a"), EventSource::External);
    q.push(event("b"), EventSource::Internal(3));
    let (e, s) = q.next_event().unwrap();
    assert_eq!(e.event, literal("a", vec![]));
    assert_eq!(s, EventSource::External);
    let (e, _) = q.next_event().unwrap();
    assert_eq!(e.event, literal("b", vec![]));
    assert!(q.next_event().is_none());
}

#[test]
fn a_selector_takes_the_first_event_it_accepts_and_the_front_takes_its_place() {
    let mut q = EventQueue::new(FirstEvent).with_event_selector(OnlyInternal);
    q.push(event("a"), EventSource::External);
    q.push(event("b"), EventSource::External);
    q.push(event("c"), EventSource::Internal(1));
    q.push(event("d"), EventSource::External);
    let (e, s) = q.next_event().unwrap();
    assert_eq!(e.event, literal("c", vec![]));
    assert_eq!(s, EventSource::Internal(1));
    assert!(q.next_event().is_none());
    let mut q = q.with_event_selector(FirstEvent);
    let order: Vec<Literal> = std::iter::from_fn(|| q.next_event().map(|(e, _)| e.event)).collect();
    assert_eq!(order, vec![literal("b", vec![]), literal("a", vec![]), literal("d", vec![])]);
}

#[test]
fn knowledge_base_holds_a_set() {
    let mut kb = KnowledgeBase::new();
    let k = || Knowledge::from_belief(literal("sunny", vec![]));
    assert!(!kb.assert_no_event(k()), "new knowledge was not held before");
    assert!(kb.assert_no_event(k()), "asserting it again finds it already held");
    assert!(kb.contains(&k()));
    assert!(kb.remove_no_event(&k()));
    assert!(!kb.remove_no_event(&k()));
    assert!(!kb.contains(&k()));
}

#[test]
fn rules_are_part_of_knowledge() {
    let mut kb = KnowledgeBase::new();
    let rule = QueryFormula::and(vec![QueryFormula::literal(false, Atom("a".into()), None)]);
    let derived = Knowledge::from_literal_with_rule(literal("b", vec![]), rule);
    assert!(!kb.assert_no_event(derived));
    assert!(!kb.contains(&Knowledge::from_belief(literal("b", vec![]))));
    let (atom, arity) = Knowledge::from_belief(literal("p", vec![Term::Number(0)])).atom_and_arity();
    assert_eq!(atom, Atom("p".into()));
    assert_eq!(arity, 1);
}

#[test]
fn assert_and_remove_emit_events_only_on_change() {
    let mut kb = KnowledgeBase::new();
    let mut events = Vec::new();
    assert!(!kb.assert_belief(literal("x", vec![]), &mut events));
    assert!(kb.assert_belief(literal("x", vec![]), &mut events));
    assert_eq!(events.len(), 1);
    assert_eq!(events[0].0, EventSource::External);
    assert_eq!(events[0].1.trigger, Trigger::Addition);
    assert!(kb.remove_belief(literal("x", vec![]), &mut events));
    assert!(!kb.remove_belief(literal("x", vec![]), &mut events));
    assert_eq!(events.len(), 2);
    assert_eq!(events[1].1.trigger, Trigger::Deletion);
    assert_eq!(events[1].1.goal, None);
}

#[test]
fn knowledge_base_from_items() {
    let kb = KnowledgeBase::from_knowledge(vec![
        Knowledge::from_belief(literal("a", vec![])),
        Knowledge::from_belief(literal("a", vec![])),
        Knowledge::from_belief(literal("b", vec![])),
    ]);
    assert!(kb.contains(&Knowledge::from_belief(literal("a", vec![]))));
    assert!(kb.contains(&Knowledge::from_belief(literal("b", vec![]))));
    assert!(!kb.contains(&Knowledge::from_belief(literal("c", vec![]))));
}

#[test]
fn formulas_compare_by_value() {
    let f = |x: f32| {
        QueryFormula::Relational(RelationalQueryFormula {
            operator: RelationalOperator::Compare { operator: CompareOperator::LessThan, equal: true },
            operands: (
                ArithmeticExpression::Term(Term::Number(x.to_bits())),
                ArithmeticExpression::Operation { operator: ArithmeticOperator::Sum, operands: vec![] },
            ),
        })
    };
    assert!(f(1.0).equals(&f(1.0)));
    assert!(!f(1.0).equals(&f(2.0)));
    assert!(f(1.0).negate().equals(&QueryFormula::Not(Box::new(f(1.0)))));
    let or = QueryFormula::or(vec![f(1.0)]);
    assert!(matches!(or, QueryFormula::Logical { operator: LogicalOperator::Disjunction, .. }));
    let from: QueryFormula = literal("z", vec![]).into();
    assert!(from.equals(&QueryFormula::literal(false, Atom("z".into()), None)));
}

#[test]
fn numbers_resolve_through_bindings() {
    let x = Variable { id: VariableId(1) };
    let y = Variable { id: VariableId(2) };
    let z = Variable { id: VariableId(3) };
    let b = Bindings::new(
        vec![(x.id, Some(Term::Number(5.0f32.to_bits()))), (y.id, Some(Term::Variable(x))), (z.id, Some(Term::String(BString::from("s"))))],
        AliasMap::empty(),
    );
    assert_eq!(resolve_to_number(&Term::Number(7), &b), Ok(7));
    assert_eq!(resolve_to_number(&Term::Variable(y), &b), Ok(5.0f32.to_bits()));
    assert_eq!(resolve_to_number(&Term::Variable(z), &b), Err(EvaluationError::TypeMismatch));
    assert_eq!(resolve_to_number(&Term::Variable(Variable { id: VariableId(9) }), &b), Err(EvaluationError::InsufficientlyBound));
    assert_eq!(resolve_to_number(&Term::String(BString::from("1")), &b), Err(EvaluationError::TypeMismatch));
    assert_eq!(EvaluationError::DivisionByZero.message(), "evaluation error: division by zero");
}

#[test]
fn terms_convert_to_plain_values() {
    assert_eq!(number_from_term(&Term::Number(3)), Ok(3));
    assert_eq!(number_from_term(&Term::String(BString::from("x"))), Err(FromTermError::InvalidType(Some("number"))));
    assert_eq!(bstring_from_term(&Term::String(BString::from("hey"))).unwrap(), BString::from("hey"));
    assert_eq!(bstring_from_term(&Term::Literal(literal("atom", vec![]))).unwrap(), BString::from("atom"));
    assert_eq!(
        bstring_from_term(&Term::Literal(literal("f", vec![Term::Number(0)]))),
        Err(FromTermError::InvalidType(Some("string or atom")))
    );
    assert_eq!(string_from_term(&Term::String(BString::from("ok"))), Ok("ok".to_string()));
    assert_eq!(
        string_from_term(&Term::String(BString::from(vec![0xFFu8]))),
        Err(FromTermError::IncorrectConversion(ConversionError::InvalidUtf8))
    );
    assert_eq!(FromTermError::InvalidType(Some("number")).message(), "from term error: invalid type: expected number");
    assert_eq!(ConversionError::InvalidAid("bad".to_string()).message(), "coversion error: invalid aid: bad");
}

#[test]
fn tick_budget_defaults() {
    let b = TickBudget::default();
    assert_eq!(b.max_events, 1);
    assert_eq!(b.max_intentions, 1);
    assert_eq!(b.max_messages, None);
    assert_eq!(budgeted(Some(2), 5), 2);
    assert_eq!(budgeted(Some(9), 5), 5);
    assert_eq!(budgeted(None, 5), 5);
    let c = PureContext::new("agent".to_string());
    assert_eq!(c.clone().agent_name, "agent");
    let plan: Plan<()> = Plan { trigger: TriggeringEvent { trigger: Trigger::Addition, event: lit_for_selector(), goal: None }, context: None, body: vec![] };
    assert!(PlanSelector::<()>::filter_plan(&mut FirstApplicable, &plan));
}

fn lit_for_selector() -> Literal {
    Literal { negated: false, structure: Structure { functor: Atom("go".into()), arguments: None } }
}
