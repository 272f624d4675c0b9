use bstr::BString;
use ember_bdi::bindings::Bindings;
use ember_bdi::event::{GoalKind, Trigger, TriggeringEvent};
use ember_bdi::knowledge::answers::Evaluate;
use ember_bdi::knowledge::query::{ArithmeticExpression, EvaluationError, QueryFormula};
use ember_bdi::knowledge::{Knowledge, KnowledgeBase};
use ember_bdi::literal::Literal;
use ember_bdi::plan::{FirstApplicable, Plan, PlanLibrary};
use ember_bdi::term::{Atom, Structure, Term};
use ember_bdi::variable::{Variable, VariableSupply};

struct NoArithmetic;

impl Evaluate for NoArithmetic {
    fn evaluate(&self, _expr: &ArithmeticExpression, _bindings: &Bindings) -> Result<u32, EvaluationError> {
        Err(EvaluationError::TypeMismatch)
    }
}

fn st(x: &str) -> Term {
    Term::String(BString::from(x))
}

fn nt(x: f32) -> Term {
    Term::Number(x.to_bits())
}

fn vt(v: &Variable) -> Term {
    Term::Variable(*v)
}

fn lit(functor: &str, args: Vec<Term>) -> Literal {
    Literal {
        negated: false,
        structure: Structure { functor: Atom(functor.into()), arguments: if args.is_empty() { None } else { Some(args) } },
    }
}

fn make_event(functor: &str, args: Vec<Term>, goal: Option<GoalKind>) -> TriggeringEvent {
    TriggeringEvent { trigger: Trigger::Addition, goal, event: lit(functor, args) }
}

fn make_lit_formula(functor: &str, args: Vec<Term>) -> QueryFormula {
    QueryFormula::Literal(lit(functor, args))
}

fn plan(trigger: TriggeringEvent, context: Option<QueryFormula>) -> Plan<()> {
    Plan { trigger, context, body: vec![] }
}

fn select(store: &PlanLibrary<()>, event: &TriggeringEvent, bb: &KnowledgeBase) -> Option<(usize, Bindings)> {
    store.select(event, &mut FirstApplicable, bb, 16, &NoArithmetic)
}

fn assert_belief(bb: &mut KnowledgeBase, functor: &str, args: Vec<Term>) {
    bb.assert_no_event(Knowledge::from_belief(lit(functor, args)));
}

#[test]
fn test_relevant_but_not_applicable() {
    let mut store = PlanLibrary::new();
    let mut bb = KnowledgeBase::new();
    store.add(plan(make_event("test", vec![], Some(GoalKind::Achieve)), Some(make_lit_formula("is_ready", vec![]))));
    let event = make_event("test", vec![], Some(GoalKind::Achieve));
    assert!(select(&store, &event, &bb).is_none(), "Plan should not be applicable");
    assert_belief(&mut bb, "is_ready", vec![]);
    assert!(select(&store, &event, &bb).is_some(), "Plan should now be applicable");
}

#[test]
fn test_backtracking_to_second_plan() {
    let mut store = PlanLibrary::new();
    let bb = KnowledgeBase::new();
    store.add(plan(make_event("goal", vec![], Some(GoalKind::Achieve)), Some(make_lit_formula("never", vec![]))));
    store.add(plan(make_event("goal", vec![], Some(GoalKind::Achieve)), None));
    let event = make_event("goal", vec![], Some(GoalKind::Achieve));
    let result = select(&store, &event, &bb);
    assert!(result.is_some(), "Should skip Plan 1 and find Plan 2");
    assert!(store.plan(result.unwrap().0).context.is_none(), "Should have selected the second plan");
}

#[test]
fn test_unification_failure_in_relevance() {
    let mut store = PlanLibrary::new();
    let bb = KnowledgeBase::new();
    store.add(plan(make_event("test", vec![nt(1.0)], Some(GoalKind::Achieve)), None));
    let event = make_event("test", vec![nt(2.0)], Some(GoalKind::Achieve));
    assert!(select(&store, &event, &bb).is_none(), "Plan trigger test(1) should not match event test(2)");
}

#[test]
fn test_variable_unification_event_to_plan() {
    let mut s = VariableSupply::new();
    let mut store = PlanLibrary::new();
    let bb = KnowledgeBase::new();
    let x = Variable::new(&mut s);
    store.add(plan(make_event("greet", vec![vt(&x)], Some(GoalKind::Achieve)), None));
    let event = make_event("greet", vec![st("Alice")], Some(GoalKind::Achieve));
    let (_, bindings) = select(&store, &event, &bb).expect("Should unify");
    assert_eq!(bindings.get(&x), Some(&st("Alice")));
}

#[test]
fn test_empty_store_returns_none() {
    let store = PlanLibrary::new();
    let bb = KnowledgeBase::new();
    let event = make_event("any", vec![], None);
    assert!(select(&store, &event, &bb).is_none());
}

#[test]
fn test_context_uses_trigger_bindings() {
    let mut s = VariableSupply::new();
    let mut store = PlanLibrary::new();
    let mut bb = KnowledgeBase::new();
    assert_belief(&mut bb, "colour", vec![st("circle"), st("red")]);
    let x = Variable::new(&mut s);
    store.add(plan(
        make_event("check", vec![vt(&x)], Some(GoalKind::Achieve)),
        Some(make_lit_formula("colour", vec![vt(&x), st("red")])),
    ));
    let event = make_event("check", vec![st("circle")], Some(GoalKind::Achieve));
    assert!(select(&store, &event, &bb).is_some(), "Context should see that Obj is 'circle' from the event");
}

#[test]
fn test_full_binding_propagation_pipeline() {
    let mut s = VariableSupply::new();
    let mut store = PlanLibrary::new();
    let mut bb = KnowledgeBase::new();
    assert_belief(&mut bb, "color", vec![st("apple"), st("red")]);
    let (x, y) = (Variable::new(&mut s), Variable::new(&mut s));
    store.add(plan(
        make_event("check", vec![vt(&x)], Some(GoalKind::Achieve)),
        Some(make_lit_formula("color", vec![vt(&x), vt(&y)])),
    ));
    let event = make_event("check", vec![st("apple")], Some(GoalKind::Achieve));
    let (_, bindings) = select(&store, &event, &bb).expect("Binding pipe failed");
    assert_eq!(bindings.get(&x), Some(&st("apple")));
    assert_eq!(bindings.get(&y), Some(&st("red")));
}

#[test]
fn test_variable_aliasing_event_to_context() {
    let mut s = VariableSupply::new();
    let mut store = PlanLibrary::new();
    let mut bb = KnowledgeBase::new();
    assert_belief(&mut bb, "linked", vec![st("a"), st("b")]);
    let (event_var, plan_var, other) = (Variable::new(&mut s), Variable::new(&mut s), Variable::new(&mut s));
    store.add(plan(
        make_event("connect", vec![vt(&plan_var)], Some(GoalKind::Achieve)),
        Some(make_lit_formula("linked", vec![vt(&plan_var), vt(&other)])),
    ));
    let event = make_event("connect", vec![vt(&event_var)], Some(GoalKind::Achieve));
    let (_, bindings) = select(&store, &event, &bb).expect("Aliasing failed");
    assert_eq!(bindings.get(&event_var), Some(&st("a")));
}

#[test]
fn test_backtracking_on_context_failure() {
    let mut s = VariableSupply::new();
    let mut store = PlanLibrary::new();
    let mut bb = KnowledgeBase::new();
    assert_belief(&mut bb, "is_broken", vec![st("bolt")]);
    let x = Variable::new(&mut s);
    store.add(plan(make_event("fix", vec![vt(&x)], Some(GoalKind::Achieve)), Some(make_lit_formula("is_tool", vec![vt(&x)]))));
    store.add(plan(make_event("fix", vec![vt(&x)], Some(GoalKind::Achieve)), Some(make_lit_formula("is_broken", vec![vt(&x)]))));
    let event = make_event("fix", vec![st("bolt")], Some(GoalKind::Achieve));
    let (i, _) = select(&store, &event, &bb).unwrap();
    let Some(QueryFormula::Literal(Literal { structure, .. })) = store.plan(i).context.as_ref() else {
        unreachable!()
    };
    assert_eq!(structure.functor.0, "is_broken");
}

#[test]
fn test_context_negation_with_event_bindings() {
    let mut s = VariableSupply::new();
    let mut bb = KnowledgeBase::new();
    let mut store = PlanLibrary::new();
    assert_belief(&mut bb, "blocked", vec![st("north")]);
    let dir = Variable::new(&mut s);
    store.add(plan(
        make_event("move", vec![vt(&dir)], Some(GoalKind::Achieve)),
        Some(QueryFormula::Not(Box::new(make_lit_formula("blocked", vec![vt(&dir)])))),
    ));
    let event_north = make_event("move", vec![st("north")], Some(GoalKind::Achieve));
    assert!(select(&store, &event_north, &bb).is_none());
    let event_south = make_event("move", vec![st("south")], Some(GoalKind::Achieve));
    assert!(select(&store, &event_south, &bb).is_some());
}

#[test]
fn plans_of_another_class_are_not_considered() {
    let mut store = PlanLibrary::new();
    let bb = KnowledgeBase::new();
    store.add(plan(make_event("go", vec![], Some(GoalKind::Query)), None));
    store.add(plan(TriggeringEvent { trigger: Trigger::Deletion, goal: Some(GoalKind::Achieve), event: lit("go", vec![]) }, None));
    store.add(plan(make_event("go", vec![st("x")], Some(GoalKind::Achieve)), None));
    assert!(select(&store, &make_event("go", vec![], Some(GoalKind::Achieve)), &bb).is_none());
    store.add(plan(make_event("go", vec![], Some(GoalKind::Achieve)), None));
    assert_eq!(select(&store, &make_event("go", vec![], Some(GoalKind::Achieve)), &bb).map(|r| r.0), Some(3));
}

#[test]
fn the_first_plan_whose_event_and_held_context_match_is_selected() {
    let mut bb = KnowledgeBase::new();
    assert_belief(&mut bb, "sunny", vec![]);
    let mut store = PlanLibrary::new();
    store.add(plan(make_event("greet", vec![st("bob")], None), None));
    store.add(plan(make_event("greet", vec![st("alice")], None), Some(make_lit_formula("raining", vec![]))));
    store.add(plan(make_event("greet", vec![st("alice")], None), Some(make_lit_formula("sunny", vec![]))));
    store.add(plan(make_event("greet", vec![st("alice")], None), None));
    let event = make_event("greet", vec![st("alice")], None);
    let (i, _) = select(&store, &event, &bb).expect("a plan applies");
    assert_eq!(i, 2);
}

#[test]
fn a_query_for_an_asserted_fact_finds_it() {
    let mut bb = KnowledgeBase::new();
    assert!(bb.answers(&make_lit_formula("item", vec![st("a"), nt(1.0)]), None, 16, &NoArithmetic).is_empty());
    assert_belief(&mut bb, "item", vec![st("a"), nt(1.0)]);
    let found = bb.answers(&make_lit_formula("item", vec![st("a"), nt(1.0)]), None, 16, &NoArithmetic);
    assert_eq!(found.len(), 1);
}

#[test]
fn a_plan_whose_event_binds_the_event_arguments_is_selected_first() {
    let bb = KnowledgeBase::new();
    let mut supply = VariableSupply::new();
    let x = Variable::new(&mut supply);
    let mut store = PlanLibrary::new();
    store.add(plan(make_event("greet", vec![st("bob")], None), None));
    store.add(plan(make_event("greet", vec![vt(&x)], None), None));
    store.add(plan(make_event("greet", vec![st("alice")], None), None));
    let event = make_event("greet", vec![st("alice")], None);
    let (i, b) = select(&store, &event, &bb).expect("a plan applies");
    assert_eq!(i, 1);
    assert_eq!(b.get(&x), Some(&st("alice")));
}

#[test]
fn a_query_with_a_variable_finds_an_asserted_fact() {
    let mut bb = KnowledgeBase::new();
    assert_belief(&mut bb, "item", vec![st("a"), nt(1.0)]);
    let mut supply = VariableSupply::new();
    let x = Variable::new(&mut supply);
    let found = bb.answers(&make_lit_formula("item", vec![vt(&x), nt(1.0)]), None, 16, &NoArithmetic);
    assert_eq!(found.len(), 1);
    assert_eq!(found[0].get(&x), Some(&st("a")));
}

#[test]
fn the_negation_of_an_asserted_fact_has_no_answer() {
    let mut bb = KnowledgeBase::new();
    let negation = QueryFormula::Not(Box::new(make_lit_formula("item", vec![st("a")])));
    assert_eq!(bb.answers(&negation, None, 16, &NoArithmetic).len(), 1);
    assert_belief(&mut bb, "item", vec![st("a")]);
    assert!(bb.answers(&negation, None, 16, &NoArithmetic).is_empty());
}

#[test]
fn a_context_with_a_variable_is_met_by_a_matching_fact() {
    let mut s = VariableSupply::new();
    let x = Variable::new(&mut s);
    let mut store = PlanLibrary::new();
    let mut bb = KnowledgeBase::new();
    store.add(plan(make_event("clean", vec![], Some(GoalKind::Achieve)), Some(make_lit_formula("dirty", vec![vt(&x)]))));
    let event = make_event("clean", vec![], Some(GoalKind::Achieve));
    assert!(select(&store, &event, &bb).is_none());
    assert_belief(&mut bb, "dirty", vec![st("kitchen")]);
    let (i, b) = select(&store, &event, &bb).expect("the fact meets the context");
    assert_eq!(i, 0);
    assert_eq!(b.get_view(&x), Some(&st("kitchen")));
}
