use bstr::BString;
use ember_bdi::agent::{BdiAgent, TickReport};
use ember_bdi::bindings::Bindings;
use ember_bdi::context::TickBudget;
use ember_bdi::event::{EventSelector, EventSource, GoalKind, Trigger, TriggeringEvent};
use ember_bdi::intention::{Fifo, Scheduler};
use ember_bdi::knowledge::answers::Evaluate;
use ember_bdi::knowledge::query::{
    resolve_to_number, ArithmeticExpression, ArithmeticOperator, CompareOperator, EvaluationError, LogicalOperator, QueryFormula,
    RelationalOperator, RelationalQueryFormula,
};
use ember_bdi::knowledge::{Knowledge, KnowledgeBase};
use ember_bdi::literal::Literal;
use ember_bdi::plan::{Action, BuiltinAction, Effect, Execute, ExecuteResult, Formula, Plan, PlanLibrary, PlanSelector};
use ember_bdi::term::{Atom, Structure, Term};
use ember_bdi::variable::{Variable, VariableSupply};

const DEPTH: u64 = 16;
const AID: &str = "test-agent@local";

// Arithmetic in `f32`, as the runtime computes it.
struct Arithmetic;

impl Arithmetic {
    fn value(expr: &ArithmeticExpression, bindings: &Bindings) -> Result<f32, EvaluationError> {
        match expr {
            ArithmeticExpression::Term(t) => resolve_to_number(t, bindings).map(f32::from_bits),
            ArithmeticExpression::Operation { operator, operands } => {
                if operands.is_empty() {
                    return Ok(0.0);
                }
                let mut acc = Self::value(&operands[0], bindings)?;
                if operands.len() == 1 && *operator == ArithmeticOperator::Min {
                    return Ok(-acc);
                }
                for o in &operands[1..] {
                    let x = Self::value(o, bindings)?;
                    acc = match operator {
                        ArithmeticOperator::Sum => acc + x,
                        ArithmeticOperator::Min => acc - x,
                        ArithmeticOperator::Mul => acc * x,
                        ArithmeticOperator::Div => {
                            if x.abs() <= f32::EPSILON {
                                return Err(EvaluationError::DivisionByZero);
                            }
                            acc / x
                        }
                    };
                }
                Ok(acc)
            }
        }
    }
}

impl Evaluate for Arithmetic {
    fn evaluate(&self, expr: &ArithmeticExpression, bindings: &Bindings) -> Result<u32, EvaluationError> {
        Self::value(expr, bindings).map(f32::to_bits)
    }
}

fn string(x: &str) -> Term {
    Term::String(BString::from(x))
}

fn number(x: f32) -> Term {
    Term::Number(x.to_bits())
}

fn literal(functor: &str, args: Vec<Term>) -> Literal {
    Literal {
        negated: false,
        structure: Structure { functor: Atom(functor.into()), arguments: if args.is_empty() { None } else { Some(args) } },
    }
}

fn literal_formula(functor: &str, args: Vec<Term>) -> QueryFormula {
    QueryFormula::Literal(literal(functor, args))
}

fn variable(supply: &mut VariableSupply) -> Variable {
    Variable::new(supply)
}

fn variable_term(v: &Variable) -> Term {
    Term::Variable(*v)
}

fn trigger(functor: &str, args: Vec<Term>, goal: Option<GoalKind>) -> TriggeringEvent {
    TriggeringEvent { trigger: Trigger::Addition, event: literal(functor, args), goal }
}

fn plan<A>(trigger: TriggeringEvent, context: Option<QueryFormula>, body: Vec<Formula<A>>) -> Plan<A> {
    Plan { trigger, context, body }
}

fn assert_belief(kb: &mut KnowledgeBase, functor: &str, args: Vec<Term>) {
    kb.assert_no_event(Knowledge::from_belief(literal(functor, args)));
}

fn holds(kb: &KnowledgeBase, formula: &QueryFormula) -> bool {
    !kb.answers(formula, None, DEPTH, &Arithmetic).is_empty()
}

/// A test-only action with one variant that needs several polls to complete (`Wait`) and
/// one that completes immediately (`Log`).
#[derive(Debug, Clone, PartialEq)]
enum TestAction {
    Wait(u32),
    Log(&'static str),
}

impl Execute for TestAction {
    type State = Vec<&'static str>;

    fn blocks_intention(&self) -> bool {
        true
    }

    fn should_block_intention(&self) -> bool {
        true
    }

    fn execute(self, _bindings: &Bindings, _knowledge: &KnowledgeBase, state: &mut Self::State) -> ExecuteResult<Self> {
        match self {
            TestAction::Wait(remaining) => {
                state.push("poll");
                if remaining == 0 {
                    ExecuteResult::Done(None)
                } else {
                    ExecuteResult::Pending(TestAction::Wait(remaining - 1))
                }
            }
            TestAction::Log(msg) => {
                state.push(msg);
                ExecuteResult::Done(None)
            }
        }
    }
}

fn agent<A: Execute<State = S> + Clone, S>(name: &str, state: S, beliefs: Option<KnowledgeBase>, lib: PlanLibrary<A>, goals: Vec<Literal>) -> BdiAgent<S, A, ember_bdi::intention::Random, ember_bdi::event::FirstEvent, ember_bdi::plan::FirstApplicable> {
    BdiAgent::new(name.to_string(), state, beliefs, lib, goals, DEPTH, &Arithmetic)
}

fn tick<S, A, Sched, Sel, PSel>(agent: &mut BdiAgent<S, A, Sched, Sel, PSel>, now: u64) -> TickReport
where
    A: Execute<State = S> + Clone,
    Sched: Scheduler,
    Sel: EventSelector,
    PSel: PlanSelector<A>,
{
    let report = agent.tick(vec![], vec![], now, (now as f32).to_bits(), AID, &Arithmetic);
    assert!(report.failure.is_none(), "no step may fail: {:?}", report.failure);
    report
}

#[test]
fn test_multi_poll_action_blocks_its_own_intention_but_not_others() {
    let mut lib = PlanLibrary::new();
    lib.add(plan(
        trigger("wait_test", vec![], Some(GoalKind::Achieve)),
        None,
        vec![Formula::Action(Action::User(TestAction::Wait(2))), Formula::Action(Action::User(TestAction::Log("after")))],
    ));
    lib.add(plan(trigger("other_test", vec![], Some(GoalKind::Achieve)), None, vec![Formula::Action(Action::User(TestAction::Log("other")))]));

    let mut agent = agent("test-agent", Vec::new(), None, lib, vec![literal("wait_test", vec![]), literal("other_test", vec![])])
        .with_intention_scheduler(Fifo);

    // Tick 1: `Wait(2)` is dispatched and polled once; its intention is blocked.
    tick(&mut agent, 0);
    assert_eq!(agent.state, vec!["poll"]);
    assert_eq!(agent.pending_actions.len(), 1);

    // Tick 2: `Wait` is only retried; the unrelated intention runs its one action.
    tick(&mut agent, 1);
    assert_eq!(agent.state, vec!["poll", "poll", "other"]);
    assert_eq!(agent.pending_actions.len(), 1);

    // Tick 3: `Wait` completes, and its intention advances to `Log("after")`.
    tick(&mut agent, 2);
    assert_eq!(agent.state, vec!["poll", "poll", "other", "poll", "after"]);
    assert!(agent.pending_actions.is_empty());

    for now in 0..10 {
        if agent.intentions.is_empty() {
            break;
        }
        tick(&mut agent, 3 + now);
    }
    assert!(agent.intentions.is_empty());
    assert_eq!(agent.state, vec!["poll", "poll", "other", "poll", "after"]);
}

#[test]
fn at_does_not_block_the_calling_intention_unlike_wait() {
    let mut lib = PlanLibrary::new();
    lib.add(plan(
        trigger("start", vec![], Some(GoalKind::Achieve)),
        None,
        vec![
            Formula::Action(Action::Builtin(BuiltinAction::at(3600 * 1000, literal("scheduled_goal", vec![])))),
            Formula::Action(Action::User(TestAction::Log("after_at"))),
        ],
    ));
    lib.add(plan(
        trigger("scheduled_goal", vec![], Some(GoalKind::Achieve)),
        None,
        vec![Formula::Action(Action::User(TestAction::Log("scheduled_fired")))],
    ));

    let mut agent = agent("test-agent", Vec::new(), None, lib, vec![literal("start", vec![])]).with_intention_scheduler(Fifo);

    // Tick 1: `.at` is armed and left pending without blocking its intention.
    tick(&mut agent, 0);
    assert_eq!(agent.pending_actions.len(), 1);
    assert!(agent.intentions.has_runnable());

    // Tick 2: the same intention runs its next formula straight away.
    tick(&mut agent, 1);
    assert_eq!(agent.state, vec!["after_at"]);
    assert_eq!(agent.pending_actions.len(), 1, "still waiting on its delay");
    assert!(!agent.state.contains(&"scheduled_fired"));
}

#[test]
fn test_builtin_wait_blocks_its_intention_until_it_completes() {
    let mut lib = PlanLibrary::new();
    lib.add(plan(
        trigger("wait_test", vec![], Some(GoalKind::Achieve)),
        None,
        vec![Formula::Action(Action::Builtin(BuiltinAction::wait(0))), Formula::Action(Action::User(TestAction::Log("after")))],
    ));

    let mut agent = agent("wait-agent", Vec::new(), None, lib, vec![literal("wait_test", vec![])]);

    // Tick 1: `.wait` records its start and blocks its intention.
    tick(&mut agent, 0);
    assert!(agent.state.is_empty());
    assert_eq!(agent.pending_actions.len(), 1);

    // Tick 2: the interval has elapsed; the intention advances to `Log("after")`.
    tick(&mut agent, 0);
    assert_eq!(agent.state, vec!["after"]);
    assert!(agent.pending_actions.is_empty());
}

#[test]
fn test_forall_spawns_independent_intentions_without_blocking_the_calling_plan() {
    let mut supply = VariableSupply::new();
    let mut lib = PlanLibrary::<TestAction>::new();
    let x = variable(&mut supply);
    lib.add(plan(
        trigger("start", vec![], Some(GoalKind::Achieve)),
        None,
        vec![
            Formula::Action(Action::Builtin(BuiltinAction::Forall {
                query: literal_formula("item", vec![variable_term(&x)]),
                goal: literal("mark_processed", vec![variable_term(&x)]),
            })),
            Formula::Action(Action::User(TestAction::Log("after_forall"))),
        ],
    ));
    let y = variable(&mut supply);
    lib.add(plan(
        trigger("mark_processed", vec![variable_term(&y)], Some(GoalKind::Achieve)),
        None,
        vec![Formula::Belief { trigger: Trigger::Addition, belief: literal("processed", vec![variable_term(&y)]), silent: false }],
    ));

    let mut beliefs = KnowledgeBase::new();
    assert_belief(&mut beliefs, "item", vec![string("a")]);
    assert_belief(&mut beliefs, "item", vec![string("b")]);
    assert_belief(&mut beliefs, "item", vec![string("c")]);

    let mut agent = agent("forall-agent", Vec::new(), Some(beliefs), lib, vec![literal("start", vec![])]);

    for now in 0..20 {
        if agent.intentions.is_empty() {
            break;
        }
        tick(&mut agent, now);
    }

    assert!(agent.intentions.is_empty(), "agent should reach quiescence: the main plan and all three spawned branches finish");
    assert_eq!(agent.state, vec!["after_forall"]);

    for item in ["a", "b", "c"] {
        assert!(
            holds(&agent.beliefs, &literal_formula("processed", vec![string(item)])),
            "processed({item}) should have been asserted by its own spawned intention"
        );
    }
}

/// An action that records what the variable is bound to in the bindings it runs under.
#[derive(Debug, Clone, PartialEq)]
struct RecordArg(Variable);

impl Execute for RecordArg {
    type State = Vec<String>;

    fn blocks_intention(&self) -> bool {
        true
    }

    fn should_block_intention(&self) -> bool {
        true
    }

    fn execute(self, bindings: &Bindings, _knowledge: &KnowledgeBase, state: &mut Self::State) -> ExecuteResult<Self> {
        let seen = match bindings.get(&self.0) {
            Some(Term::String(s)) => s.to_string(),
            _ => "<unbound>".to_string(),
        };
        state.push(seen);
        ExecuteResult::Done(None)
    }
}

#[test]
fn test_max_intentions_gives_each_stepped_intention_its_own_correct_bindings() {
    let mut supply = VariableSupply::new();
    let x = variable(&mut supply);
    let mut lib = PlanLibrary::<RecordArg>::new();
    lib.add(plan(trigger("say", vec![variable_term(&x)], Some(GoalKind::Achieve)), None, vec![Formula::Action(Action::User(RecordArg(x)))]));

    let agent = agent("budget-agent", Vec::new(), None, lib, vec![literal("say", vec![string("first")]), literal("say", vec![string("second")])]);
    let mut agent = agent.with_tick_budget(TickBudget { max_intentions: 10, ..TickBudget::default() });

    tick(&mut agent, 0);

    let mut recorded = agent.state.clone();
    recorded.sort();
    assert_eq!(
        recorded,
        vec!["first".to_string(), "second".to_string()],
        "each intention's action must resolve its own binding, never the other's"
    );
    assert!(agent.intentions.is_empty());
}

#[test]
fn test_max_events_drains_a_burst_of_belief_events_in_one_tick() {
    let mut supply = VariableSupply::new();
    let n = variable(&mut supply);
    let mut lib = PlanLibrary::<TestAction>::new();
    lib.add(plan(trigger("ping", vec![variable_term(&n)], None), None, vec![Formula::Action(Action::User(TestAction::Log("pong")))]));

    let agent = agent("event-budget-agent", Vec::new(), None, lib, vec![]);
    let mut agent = agent.with_tick_budget(TickBudget { max_events: 10, max_intentions: 10, ..TickBudget::default() });

    // Tick 1: a sensor reports three new `ping/1` beliefs; their events are only queued at
    // the end of the tick, so none of them is handled yet.
    let burst = vec![
        (Trigger::Addition, literal("ping", vec![number(1.0)])),
        (Trigger::Addition, literal("ping", vec![number(2.0)])),
        (Trigger::Addition, literal("ping", vec![number(3.0)])),
    ];
    let report = agent.tick(burst, vec![], 0, 0.0f32.to_bits(), AID, &Arithmetic);
    assert!(report.failure.is_none());
    assert!(agent.state.is_empty());

    // Tick 2: all three events become intentions, and all three run to completion.
    tick(&mut agent, 1);

    let mut state = agent.state.clone();
    state.sort();
    assert_eq!(state, vec!["pong", "pong", "pong"]);
    assert!(agent.intentions.is_empty());
}

#[test]
fn test_request_performative_fires_the_goal_directly_with_no_catch_plan() {
    let mut lib = PlanLibrary::new();
    lib.add(plan(trigger("do_thing", vec![], Some(GoalKind::Achieve)), None, vec![Formula::Action(Action::User(TestAction::Log("fired")))]));
    // No `+message(...)` plan on purpose.

    let mut agent = agent("request-agent", Vec::new(), None, lib, vec![]);

    let messages = vec![(true, "request".to_string(), literal("do_thing", vec![]))];
    let report = agent.tick(vec![], messages, 0, 0.0f32.to_bits(), AID, &Arithmetic);
    assert!(report.failure.is_none());

    assert_eq!(agent.state, vec!["fired"]);
}

#[test]
fn test_self_recursive_goal_does_not_leak_stack_frames() {
    let mut lib = PlanLibrary::<TestAction>::new();
    lib.add(plan(
        trigger("loop", vec![], Some(GoalKind::Achieve)),
        None,
        vec![Formula::Goal { kind: GoalKind::Achieve, goal: literal("loop", Vec::with_capacity(0)) }],
    ));

    let agent = agent("loop-agent", Vec::new(), None, lib, vec![literal("loop", Vec::with_capacity(0))]);
    let mut agent = agent.with_tick_budget(TickBudget { max_events: 10, max_intentions: 10, ..TickBudget::default() });

    for now in 0..50 {
        tick(&mut agent, now);
        if let Some(len) = agent.intentions.intention_stack_len(0) {
            assert_eq!(len, 1, "self-recursive goal must not accumulate dead frames underneath the live one");
        }
    }
}

#[test]
fn test_custom_plan_selector_replaces_first_applicable() {
    // Rejects any applicable plan with a one-step body.
    struct RejectShortBody;

    impl<A> PlanSelector<A> for RejectShortBody {
        fn filter_plan(&mut self, plan: &Plan<A>) -> bool {
            plan.body.len() > 1
        }
    }

    let mut lib = PlanLibrary::<TestAction>::new();
    lib.add(plan(trigger("start", vec![], Some(GoalKind::Achieve)), None, vec![Formula::Action(Action::User(TestAction::Log("first")))]));
    lib.add(plan(
        trigger("start", vec![], Some(GoalKind::Achieve)),
        None,
        vec![Formula::Action(Action::User(TestAction::Log("second"))), Formula::Action(Action::User(TestAction::Log("marker")))],
    ));

    // The initial goal is handled with the selector the agent is made with; the goal is
    // raised again once the custom selector is in place.
    let agent = agent("selector-agent", Vec::new(), None, lib, vec![]);
    let mut agent = agent.with_plan_selector(RejectShortBody);
    agent.handle_event(trigger("start", vec![], Some(GoalKind::Achieve)), EventSource::External, &Arithmetic);

    for now in 0..10 {
        if agent.intentions.is_empty() {
            break;
        }
        tick(&mut agent, now);
    }

    assert_eq!(agent.state, vec!["second", "marker"]);
}

fn rule(functor: &str, args: Vec<Term>, body: QueryFormula) -> Knowledge {
    Knowledge::from_literal_with_rule(literal(functor, args), body)
}

fn and(ops: Vec<QueryFormula>) -> QueryFormula {
    QueryFormula::Logical { operator: LogicalOperator::Conjunction, operands: ops }
}

fn not(op: QueryFormula) -> QueryFormula {
    QueryFormula::Not(Box::new(op))
}

fn expr(t: Term) -> ArithmeticExpression {
    ArithmeticExpression::Term(t)
}

fn minus(a: ArithmeticExpression, b: ArithmeticExpression) -> ArithmeticExpression {
    ArithmeticExpression::Operation { operator: ArithmeticOperator::Min, operands: vec![a, b] }
}

fn gt(l: ArithmeticExpression, r: ArithmeticExpression) -> QueryFormula {
    QueryFormula::Relational(RelationalQueryFormula {
        operator: RelationalOperator::Compare { operator: CompareOperator::GreaterThan, equal: false },
        operands: (l, r),
    })
}

#[test]
fn test_gateway_retry_across_separate_invocations() {
    let mut supply = VariableSupply::new();

    // recent_reply(GW) :- last_reply(GW, T) & now(Now) & not Now - T > 5000.0.
    // gateway_down(GW) :- last_request(GW, ReqT) & now(Now) & not recent_reply(GW)
    //                      & Now - ReqT > 5000.0.
    let gw1 = variable(&mut supply);
    let treply = variable(&mut supply);
    let now2 = variable(&mut supply);
    let recent_reply = rule(
        "recent_reply",
        vec![variable_term(&gw1)],
        and(vec![
            literal_formula("last_reply", vec![variable_term(&gw1), variable_term(&treply)]),
            literal_formula("now", vec![variable_term(&now2)]),
            not(gt(minus(expr(variable_term(&now2)), expr(variable_term(&treply))), expr(number(5000.0)))),
        ]),
    );

    let gw2 = variable(&mut supply);
    let treq = variable(&mut supply);
    let now3 = variable(&mut supply);
    let gateway_down = rule(
        "gateway_down",
        vec![variable_term(&gw2)],
        and(vec![
            literal_formula("last_request", vec![variable_term(&gw2), variable_term(&treq)]),
            literal_formula("now", vec![variable_term(&now3)]),
            not(literal_formula("recent_reply", vec![variable_term(&gw2)])),
            gt(minus(expr(variable_term(&now3)), expr(variable_term(&treq))), expr(number(5000.0))),
        ]),
    );

    let mut beliefs = KnowledgeBase::new();
    beliefs.assert_no_event(recent_reply);
    beliefs.assert_no_event(gateway_down);
    assert_belief(&mut beliefs, "gateway_a", vec![string("ga-1")]);
    assert_belief(&mut beliefs, "gateway_b", vec![string("ga-2")]);
    assert_belief(&mut beliefs, "now", vec![number(0.0)]);

    // +!select_gateway : gateway_a(GW) & not gateway_down(GW) <- +target_gateway(GW).
    // +!select_gateway : gateway_b(GW) & not gateway_down(GW) <- +target_gateway(GW).
    let mut lib = PlanLibrary::<TestAction>::new();
    let gwa = variable(&mut supply);
    lib.add(plan(
        trigger("select_gateway", vec![], Some(GoalKind::Achieve)),
        Some(and(vec![
            literal_formula("gateway_a", vec![variable_term(&gwa)]),
            not(literal_formula("gateway_down", vec![variable_term(&gwa)])),
        ])),
        vec![Formula::Belief { trigger: Trigger::Addition, belief: literal("target_gateway", vec![variable_term(&gwa)]), silent: false }],
    ));
    let gwb = variable(&mut supply);
    lib.add(plan(
        trigger("select_gateway", vec![], Some(GoalKind::Achieve)),
        Some(and(vec![
            literal_formula("gateway_b", vec![variable_term(&gwb)]),
            not(literal_formula("gateway_down", vec![variable_term(&gwb)])),
        ])),
        vec![Formula::Belief { trigger: Trigger::Addition, belief: literal("target_gateway", vec![variable_term(&gwb)]), silent: false }],
    ));

    let mut agent = agent("va-poc", Vec::new(), Some(beliefs), lib, vec![]);

    // Invocation 1: cold boot, neither gateway has ever been contacted.
    agent.handle_event(trigger("select_gateway", vec![], Some(GoalKind::Achieve)), EventSource::External, &Arithmetic);
    for now in 0..5 {
        tick(&mut agent, now);
    }

    let ga1 = literal_formula("target_gateway", vec![string("ga-1")]);
    let ga2 = literal_formula("target_gateway", vec![string("ga-2")]);
    assert!(holds(&agent.beliefs, &ga1), "invocation 1: cold boot should target ga-1 (checked first, neither gateway down yet)");

    // Between invocations: a request went to ga-1, it never replied, and now() advances
    // past the 5s timeout.
    agent.beliefs.remove_no_event(&Knowledge::from_belief(literal("target_gateway", vec![string("ga-1")])));
    agent.beliefs.assert_no_event(Knowledge::from_belief(literal("last_request", vec![string("ga-1"), number(0.0)])));
    agent.beliefs.remove_no_event(&Knowledge::from_belief(literal("now", vec![number(0.0)])));
    agent.beliefs.assert_no_event(Knowledge::from_belief(literal("now", vec![number(6000.0)])));

    // Invocation 2: ga-1 is down, ga-2 is not.
    agent.handle_event(trigger("select_gateway", vec![], Some(GoalKind::Achieve)), EventSource::External, &Arithmetic);
    for now in 5..10 {
        tick(&mut agent, now);
    }

    let debug = format!(
        "target_gateway(ga-1)={} target_gateway(ga-2)={} gateway_down(ga-1)={} gateway_down(ga-2)={}",
        holds(&agent.beliefs, &ga1),
        holds(&agent.beliefs, &ga2),
        holds(&agent.beliefs, &literal_formula("gateway_down", vec![string("ga-1")])),
        holds(&agent.beliefs, &literal_formula("gateway_down", vec![string("ga-2")])),
    );
    assert!(
        holds(&agent.beliefs, &ga2),
        "invocation 2: ga-1 is down and ga-2 is not -- select_gateway should retarget to ga-2. {debug}"
    );
}

#[test]
fn subgoal_runs_on_top_of_the_intention_that_raised_it() {
    let mut lib = PlanLibrary::new();
    lib.add(plan(
        trigger("outer", vec![], Some(GoalKind::Achieve)),
        None,
        vec![
            Formula::Goal { kind: GoalKind::Achieve, goal: literal("inner", vec![]) },
            Formula::Action(Action::User(TestAction::Log("after_inner"))),
        ],
    ));
    lib.add(plan(trigger("inner", vec![], Some(GoalKind::Achieve)), None, vec![Formula::Action(Action::User(TestAction::Log("in_inner")))]));

    let mut agent = agent("subgoal-agent", Vec::new(), None, lib, vec![literal("outer", vec![])]);

    // Tick 1: the subgoal is raised; its intention waits for the event to be handled.
    tick(&mut agent, 0);
    assert!(agent.state.is_empty());
    assert!(!agent.intentions.has_runnable());
    assert_eq!(agent.intentions.intention_stack_len(0), Some(1));

    // Tick 2: the event is handled; the plan for it runs on top of the same intention.
    tick(&mut agent, 1);
    assert_eq!(agent.state, vec!["in_inner"]);
    assert_eq!(agent.intentions.intention_stack_len(0), Some(1));

    // Tick 3: back in the outer plan.
    tick(&mut agent, 2);
    assert_eq!(agent.state, vec!["in_inner", "after_inner"]);
    assert!(agent.intentions.is_empty());
}

#[test]
fn a_failed_step_is_reported_with_its_intention() {
    let mut lib = PlanLibrary::<TestAction>::new();
    lib.add(plan(
        trigger("start", vec![], Some(GoalKind::Achieve)),
        None,
        vec![Formula::Unify { lhs: ArithmeticExpression::Term(string("a")), rhs: ArithmeticExpression::Term(string("b")) }],
    ));
    let mut agent = agent("failing-agent", Vec::new(), None, lib, vec![literal("start", vec![])]);
    let report = agent.tick(vec![], vec![], 0, 0, AID, &Arithmetic);
    assert!(matches!(report.failure, Some((0, ember_bdi::intention::StepError::UnifyFailed))));
}

#[test]
fn a_tick_reports_what_the_built_in_actions_it_ran_ask_for() {
    let mut lib = PlanLibrary::<TestAction>::new();
    lib.add(plan(
        trigger("shutdown", vec![], Some(GoalKind::Achieve)),
        None,
        vec![
            Formula::Action(Action::Builtin(BuiltinAction::Log(ember_bdi::plan::LogLevel::Info, vec![string("bye")]))),
            Formula::Action(Action::Builtin(BuiltinAction::StopPlatform)),
        ],
    ));
    let mut agent = agent("stopping-agent", Vec::new(), None, lib, vec![literal("shutdown", vec![])]);

    let report = tick(&mut agent, 0);

    assert_eq!(report.effects.len(), 1);
    assert!(matches!(&report.effects[0], Effect::Log(ember_bdi::plan::LogLevel::Info, terms) if terms == &vec![string("bye")]));
    let report = tick(&mut agent, 1);
    assert_eq!(report.effects.len(), 1);
    assert!(matches!(report.effects[0], Effect::StopPlatform));
}
