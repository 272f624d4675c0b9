use bstr::BString;
use ember_bdi::bindings::{AliasMap, Bindings};
use ember_bdi::knowledge::answers::Evaluate;
use ember_bdi::knowledge::query::{
    resolve_to_number, ArithmeticExpression, ArithmeticOperator, CompareOperator, EvaluationError, LogicalOperator, QueryFormula,
    RelationalOperator, RelationalQueryFormula,
};
use ember_bdi::knowledge::{Knowledge, KnowledgeBase};
use ember_bdi::literal::Literal;
use ember_bdi::term::{Atom, Structure, Term};
use ember_bdi::variable::{Variable, VariableSupply};

const DEPTH: u64 = 16;

// Arithmetic in `f32`, as the runtime computes it.
struct Arithmetic;

impl Arithmetic {
    fn value(expr: &ArithmeticExpression, bindings: &Bindings) -> Result<f32, EvaluationError> {
        match expr {
            ArithmeticExpression::Term(t) => resolve_to_number(t, bindings).map(f32::from_bits),
            ArithmeticExpression::Operation { operator, operands } => {
                if operands.is_empty() {
                    return Ok(0.0);
                }
                let mut acc = Self::value(&operands[0], bindings)?;
                if operands.len() == 1 && *operator == ArithmeticOperator::Min {
                    return Ok(-acc);
                }
                for o in &operands[1..] {
                    let x = Self::value(o, bindings)?;
                    acc = match operator {
                        ArithmeticOperator::Sum => acc + x,
                        ArithmeticOperator::Min => acc - x,
                        ArithmeticOperator::Mul => acc * x,
                        ArithmeticOperator::Div => {
                            if x.abs() <= f32::EPSILON {
                                return Err(EvaluationError::DivisionByZero);
                            }
                            acc / x
                        }
                    };
                }
                Ok(acc)
            }
        }
    }
}

impl Evaluate for Arithmetic {
    fn evaluate(&self, expr: &ArithmeticExpression, bindings: &Bindings) -> Result<u32, EvaluationError> {
        Self::value(expr, bindings).map(f32::to_bits)
    }
}

fn string(x: &str) -> Term {
    Term::String(BString::from(x))
}

fn number(x: f32) -> Term {
    Term::Number(x.to_bits())
}

fn list(items: Vec<Term>) -> Term {
    Term::List(items)
}

fn vt(v: &Variable) -> Term {
    Term::Variable(*v)
}

fn lit(functor: &str, args: Vec<Term>) -> Literal {
    Literal {
        negated: false,
        structure: Structure { functor: Atom(functor.into()), arguments: if args.is_empty() { None } else { Some(args) } },
    }
}

fn literal(functor: &str, args: Vec<Term>) -> QueryFormula {
    QueryFormula::Literal(lit(functor, args))
}

fn belief(functor: &str, args: Vec<Term>) -> Knowledge {
    Knowledge::from_belief(lit(functor, args))
}

fn rule(functor: &str, args: Vec<Term>, body: QueryFormula) -> Knowledge {
    Knowledge::from_literal_with_rule(lit(functor, args), body)
}

fn and(ops: Vec<QueryFormula>) -> QueryFormula {
    QueryFormula::Logical { operator: LogicalOperator::Conjunction, operands: ops }
}

fn or(ops: Vec<QueryFormula>) -> QueryFormula {
    QueryFormula::Logical { operator: LogicalOperator::Disjunction, operands: ops }
}

fn not(op: QueryFormula) -> QueryFormula {
    QueryFormula::Not(Box::new(op))
}

fn expr(t: Term) -> ArithmeticExpression {
    ArithmeticExpression::Term(t)
}

fn math(op: ArithmeticOperator, args: Vec<ArithmeticExpression>) -> ArithmeticExpression {
    ArithmeticExpression::Operation { operator: op, operands: args }
}

fn cmp(l: ArithmeticExpression, op: CompareOperator, eq: bool, r: ArithmeticExpression) -> QueryFormula {
    QueryFormula::Relational(RelationalQueryFormula { operator: RelationalOperator::Compare { operator: op, equal: eq }, operands: (l, r) })
}

fn unify(l: ArithmeticExpression, r: ArithmeticExpression) -> QueryFormula {
    QueryFormula::Relational(RelationalQueryFormula { operator: RelationalOperator::Unify, operands: (l, r) })
}

fn kb(items: Vec<Knowledge>) -> KnowledgeBase {
    let mut kb = KnowledgeBase::new();
    for k in items {
        kb.assert_no_event(k);
    }
    kb
}

fn answers(kb: &KnowledgeBase, formula: &QueryFormula, existing: Option<&Bindings>) -> Vec<Bindings> {
    kb.answers(formula, existing, DEPTH, &Arithmetic)
}

#[test]
fn query_shared_variable_conjunction() {
    let kb = kb(vec![belief("parent", vec![string("alice"), string("bob")]), belief("parent", vec![string("bob"), string("charlie")])]);
    let mut s = VariableSupply::new();
    let (x, y) = (Variable::new(&mut s), Variable::new(&mut s));
    let formula = and(vec![literal("parent", vec![string("alice"), vt(&x)]), literal("parent", vec![vt(&x), vt(&y)])]);
    let found = answers(&kb, &formula, None);
    let bindings = found.first().expect("Should find bindings");
    assert_eq!(bindings.get_view(&x), Some(&string("bob")));
    assert_eq!(bindings.get_view(&y), Some(&string("charlie")));
}

#[test]
fn query_backtracking_across_operands() {
    let kb = kb(vec![
        belief("p", vec![number(1.0), number(10.0)]),
        belief("p", vec![number(1.0), number(20.0)]),
        belief("q", vec![number(20.0), number(30.0)]),
    ]);
    let mut s = VariableSupply::new();
    let (x, y) = (Variable::new(&mut s), Variable::new(&mut s));
    let formula = and(vec![literal("p", vec![number(1.0), vt(&x)]), literal("q", vec![vt(&x), vt(&y)])]);
    let found = answers(&kb, &formula, None);
    let bindings = found.first().expect("Should backtrack to X=20");
    assert_eq!(bindings.get_view(&x), Some(&number(20.0)));
    assert_eq!(bindings.get_view(&y), Some(&number(30.0)));
}

#[test]
fn closed_world_negation() {
    let kb = kb(vec![belief("is_raining", vec![])]);
    assert!(!answers(&kb, &not(literal("is_sunny", vec![])), None).is_empty());
    assert!(answers(&kb, &not(literal("is_raining", vec![])), None).is_empty());
}

#[test]
fn disjunction_and_flattening() {
    let kb = kb(vec![belief("a", vec![number(1.0)]), belief("b", vec![number(2.0)]), belief("c", vec![number(2.0)])]);
    let mut s = VariableSupply::new();
    let x = Variable::new(&mut s);
    let formula = and(vec![or(vec![literal("a", vec![vt(&x)]), literal("b", vec![vt(&x)])]), literal("c", vec![vt(&x)])]);
    let found = answers(&kb, &formula, None);
    assert_eq!(found.len(), 1, "Should match X=2 only");
    assert_eq!(found[0].get_view(&x), Some(&number(2.0)));
}

#[test]
fn relational_comparison() {
    let kb = kb(vec![belief("val", vec![number(5.0)]), belief("val", vec![number(15.0)])]);
    let mut s = VariableSupply::new();
    let x = Variable::new(&mut s);
    let formula = and(vec![literal("val", vec![vt(&x)]), cmp(expr(vt(&x)), CompareOperator::GreaterThan, false, expr(number(10.0)))]);
    let found = answers(&kb, &formula, None);
    assert_eq!(found.len(), 1, "Should find X=15 only");
    assert_eq!(found[0].get_view(&x), Some(&number(15.0)));
}

#[test]
fn relational_unification_math() {
    let kb = kb(vec![belief("base", vec![number(10.0)])]);
    let mut s = VariableSupply::new();
    let (x, y) = (Variable::new(&mut s), Variable::new(&mut s));
    let formula = and(vec![
        literal("base", vec![vt(&x)]),
        unify(expr(vt(&y)), math(ArithmeticOperator::Mul, vec![expr(vt(&x)), expr(number(2.0))])),
    ]);
    let found = answers(&kb, &formula, None);
    let bindings = found.first().expect("Should unify Y to 20");
    assert_eq!(bindings.get_view(&y), Some(&number(20.0)));
}

#[test]
fn arithmetic_division_by_zero_fails_gracefully() {
    let kb = kb(vec![belief("val", vec![number(0.0)]), belief("val", vec![number(2.0)])]);
    let mut s = VariableSupply::new();
    let x = Variable::new(&mut s);
    let formula = and(vec![
        literal("val", vec![vt(&x)]),
        cmp(math(ArithmeticOperator::Div, vec![expr(number(10.0)), expr(vt(&x))]), CompareOperator::EqualTo, true, expr(number(5.0))),
    ]);
    let found = answers(&kb, &formula, None);
    assert_eq!(found.len(), 1, "Should recover and find X=2");
    assert_eq!(found[0].get_view(&x), Some(&number(2.0)));
}

#[test]
fn type_mismatch_fails_gracefully() {
    let kb = kb(vec![belief("val", vec![string("not_a_number")])]);
    let mut s = VariableSupply::new();
    let x = Variable::new(&mut s);
    let formula = and(vec![literal("val", vec![vt(&x)]), cmp(expr(vt(&x)), CompareOperator::GreaterThan, false, expr(number(0.0)))]);
    assert!(answers(&kb, &formula, None).is_empty());
}

#[test]
fn arithmetic_rejects_list_term() {
    let kb = kb(vec![belief("val", vec![list(vec![number(1.0), number(2.0)])])]);
    let mut s = VariableSupply::new();
    let x = Variable::new(&mut s);
    let formula = and(vec![literal("val", vec![vt(&x)]), cmp(expr(vt(&x)), CompareOperator::GreaterThan, false, expr(number(0.0)))]);
    assert!(answers(&kb, &formula, None).is_empty());
}

#[test]
fn complex_de_morgan_resolution() {
    let kb = kb(vec![belief("p", vec![number(1.0)]), belief("q", vec![number(1.0)])]);
    let formula = not(or(vec![not(literal("p", vec![number(1.0)])), not(literal("q", vec![number(1.0)]))]));
    assert!(!answers(&kb, &formula, None).is_empty());
}

#[test]
fn rule_reevaluated_after_unrelated_backtracking() {
    let mut s = VariableSupply::new();
    let v = Variable::new(&mut s);
    let kb = kb(vec![
        belief("alt", vec![number(1.0)]),
        belief("alt", vec![number(2.0)]),
        belief("sib", vec![string("a")]),
        belief("matches", vec![string("a")]),
        rule("has_conflict", vec![], and(vec![literal("sib", vec![vt(&v)]), literal("matches", vec![vt(&v)])])),
        rule("green_safe", vec![], not(literal("has_conflict", vec![]))),
    ]);
    let x = Variable::new(&mut s);
    let formula = and(vec![literal("alt", vec![vt(&x)]), literal("green_safe", vec![])]);
    assert!(
        answers(&kb, &formula, None).is_empty(),
        "should fail for both alt(1) and alt(2): has_conflict is genuinely true and nothing ever retracts it"
    );
}

#[test]
fn rule_query_ignores_already_bound_argument_and_matches_unrelated_grounding() {
    let mut s = VariableSupply::new();
    let x = Variable::new(&mut s);
    let kb = kb(vec![rule("down", vec![vt(&x)], literal("requested", vec![vt(&x)])), belief("requested", vec![string("a")])]);
    let ground_query = not(literal("down", vec![string("b")]));
    assert!(!answers(&kb, &ground_query, None).is_empty(), "sanity check: down(b) should be false since requested(b) doesn't exist");
    let gw = Variable::new(&mut s);
    let pre_bound = Bindings::new(vec![(gw.id, Some(string("b")))], AliasMap::empty());
    let bound_query = not(literal("down", vec![vt(&gw)]));
    assert!(
        !answers(&kb, &bound_query, Some(&pre_bound)).is_empty(),
        "down(GW) with GW pre-bound to \"b\" should also be false"
    );
}

#[test]
fn rule_query_preserves_unrelated_bindings_from_earlier_conjuncts() {
    let mut s = VariableSupply::new();
    let x = Variable::new(&mut s);
    let kb = kb(vec![
        rule("down", vec![vt(&x)], literal("requested", vec![vt(&x)])),
        belief("requested", vec![string("a")]),
        belief("echo", vec![string("keep-me")]),
        belief("gateway_b", vec![string("a")]),
    ]);
    let (y, gw) = (Variable::new(&mut s), Variable::new(&mut s));
    let formula = and(vec![literal("echo", vec![vt(&y)]), literal("gateway_b", vec![vt(&gw)]), literal("down", vec![vt(&gw)])]);
    let found = answers(&kb, &formula, None);
    let bindings = found.first().expect("down(GW) should succeed: GW = \"a\" matches requested(a)");
    assert_eq!(bindings.get_view(&y), Some(&string("keep-me")));
}

#[test]
fn nested_rule_over_disjunctive_rule_still_leaks_unrelated_bindings() {
    let mut s = VariableSupply::new();
    let mut items = Vec::new();
    for (via, cost) in [("load", 1.0f32), ("c", 14.0), ("source", 11.0)] {
        let (d, v, c) = (Variable::new(&mut s), Variable::new(&mut s), Variable::new(&mut s));
        items.push(rule(
            "reachable",
            vec![vt(&d), vt(&v), vt(&c)],
            and(vec![
                unify(expr(vt(&d)), expr(string("load"))),
                unify(expr(vt(&v)), expr(string(via))),
                unify(expr(vt(&c)), expr(number(cost))),
            ]),
        ));
    }
    let (bd, bc, bc2, b_via) = (Variable::new(&mut s), Variable::new(&mut s), Variable::new(&mut s), Variable::new(&mut s));
    items.push(rule(
        "better_exists",
        vec![vt(&bd), vt(&bc)],
        and(vec![
            literal("reachable", vec![vt(&bd), vt(&b_via), vt(&bc2)]),
            cmp(expr(vt(&bc2)), CompareOperator::LessThan, false, expr(vt(&bc))),
        ]),
    ));
    let (rd, rv, rc) = (Variable::new(&mut s), Variable::new(&mut s), Variable::new(&mut s));
    items.push(rule(
        "best_route",
        vec![vt(&rd), vt(&rv), vt(&rc)],
        and(vec![literal("reachable", vec![vt(&rd), vt(&rv), vt(&rc)]), not(literal("better_exists", vec![vt(&rd), vt(&rc)]))]),
    ));
    let kb = kb(items);
    let (via, cost) = (Variable::new(&mut s), Variable::new(&mut s));
    let formula = literal("best_route", vec![string("load"), vt(&via), vt(&cost)]);
    let solutions: Vec<(Option<Term>, Option<Term>)> =
        answers(&kb, &formula, None).iter().map(|b| (b.get_view(&via).cloned(), b.get_view(&cost).cloned())).collect();
    assert_eq!(
        solutions,
        vec![(Some(string("load")), Some(number(1.0)))],
        "best_route(load, Via, Cost) should have exactly one solution (via=load, cost=1)"
    );
}

#[test]
fn single_solution_conjunct_before_enumerating_conjunct_yields_all_combinations() {
    let kb = kb(vec![belief("node_active", vec![]), belief("neighbor", vec![string("n1")]), belief("neighbor", vec![string("n2")])]);
    let mut s = VariableSupply::new();
    let via = Variable::new(&mut s);
    let formula = and(vec![literal("node_active", vec![]), literal("neighbor", vec![vt(&via)])]);
    let found = answers(&kb, &formula, None);
    assert_eq!(found.len(), 2);
    assert_eq!(found[0].get_view(&via), Some(&string("n1")), "should find first neighbor");
    assert_eq!(found[1].get_view(&via), Some(&string("n2")), "should find second neighbor too");
}

#[test]
fn negating_conjunction_with_shared_variable_checks_the_whole_conjunction() {
    let kb = kb(vec![belief("via_candidate", vec![string("n1"), number(1.0)]), belief("via_candidate", vec![string("n5"), number(5.0)])]);
    let mut s = VariableSupply::new();
    let (other_id, any) = (Variable::new(&mut s), Variable::new(&mut s));
    let formula = not(and(vec![
        literal("via_candidate", vec![vt(&any), vt(&other_id)]),
        cmp(expr(vt(&other_id)), CompareOperator::LessThan, false, expr(number(2.0))),
    ]));
    assert!(answers(&kb, &formula, None).is_empty());
}

#[test]
fn double_negation_behaves_like_the_original() {
    let kb = kb(vec![belief("p", vec![])]);
    assert!(!answers(&kb, &not(not(literal("p", vec![]))), None).is_empty());
    assert!(answers(&kb, &not(not(literal("q", vec![]))), None).is_empty());
}

#[test]
fn disjunction_nested_inside_conjunction_resolves_via_subquery() {
    let kb = kb(vec![belief("node_active", vec![]), belief("neighbor", vec![string("n1")]), belief("neighbor", vec![string("n2")])]);
    let mut s = VariableSupply::new();
    let via = Variable::new(&mut s);
    let formula = and(vec![literal("node_active", vec![]), or(vec![literal("neighbor", vec![vt(&via)])])]);
    let found = answers(&kb, &formula, None);
    assert_eq!(found.len(), 2);
    assert_eq!(found[0].get_view(&via), Some(&string("n1")), "should find first neighbor");
    assert_eq!(found[1].get_view(&via), Some(&string("n2")), "should find second neighbor too");
}

#[test]
fn a_recursive_rule_is_answered_only_as_deep_as_allowed() {
    // loop :- loop.  has no answer at any depth, and the search stops.
    let kb = kb(vec![rule("loop", vec![], literal("loop", vec![]))]);
    assert!(kb.answers(&literal("loop", vec![]), None, 3, &Arithmetic).is_empty());
    // r :- q.  q.  needs one rule level.
    let kb = kb_with_rule();
    assert!(kb.answers(&literal("r", vec![]), None, 0, &Arithmetic).is_empty());
    assert_eq!(kb.answers(&literal("r", vec![]), None, 1, &Arithmetic).len(), 1);
}

fn kb_with_rule() -> KnowledgeBase {
    kb(vec![rule("r", vec![], literal("q", vec![])), belief("q", vec![])])
}

#[test]
fn answers_keep_the_existing_bindings() {
    let kb = kb(vec![belief("p", vec![string("a")]), belief("p", vec![string("b")])]);
    let mut s = VariableSupply::new();
    let (x, y) = (Variable::new(&mut s), Variable::new(&mut s));
    let existing = Bindings::new(vec![(y.id, Some(string("kept")))], AliasMap::empty());
    let found = answers(&kb, &literal("p", vec![vt(&x)]), Some(&existing));
    assert_eq!(found.len(), 2);
    for b in &found {
        assert_eq!(b.get_view(&y), Some(&string("kept")));
    }
    assert_eq!(found[0].get_view(&x), Some(&string("a")));
    assert_eq!(found[1].get_view(&x), Some(&string("b")));
}

#[test]
fn knowledge_shared_variable_conjunction() {
    // parent(alice, bob), parent(bob, charlie); parent(alice, X), parent(X, Y).
    let kb = kb(vec![belief("parent", vec![string("alice"), string("bob")]), belief("parent", vec![string("bob"), string("charlie")])]);
    let mut s = VariableSupply::new();
    let (x, y) = (Variable::new(&mut s), Variable::new(&mut s));
    let formula = and(vec![literal("parent", vec![string("alice"), vt(&x)]), literal("parent", vec![vt(&x), vt(&y)])]);
    let found = answers(&kb, &formula, None);
    let bindings = found.first().expect("Should find grandparent relation");
    assert_eq!(bindings.get_view(&x), Some(&string("bob")));
    assert_eq!(bindings.get_view(&y), Some(&string("charlie")));
}

#[test]
fn knowledge_backtracking_across_operands() {
    // p(1, 10). p(1, 20). q(20, 30). A query for p(1, X), q(X, Y) skips X=10 and finds X=20.
    let kb = kb(vec![
        belief("p", vec![string("1"), string("10")]),
        belief("p", vec![string("1"), string("20")]),
        belief("q", vec![string("20"), string("30")]),
    ]);
    let mut s = VariableSupply::new();
    let (x, y) = (Variable::new(&mut s), Variable::new(&mut s));
    let formula = and(vec![literal("p", vec![string("1"), vt(&x)]), literal("q", vec![vt(&x), vt(&y)])]);
    let found = answers(&kb, &formula, None);
    let bindings = found.first().expect("Backtracking should find X=20");
    assert_eq!(bindings.get_view(&x), Some(&string("20")));
    assert_eq!(bindings.get_view(&y), Some(&string("30")));
}

#[test]
fn closed_world_negation_success() {
    let kb = kb(vec![belief("is_raining", vec![])]);
    assert!(!answers(&kb, &not(literal("is_sunny", vec![])), None).is_empty(), "Negation of unknown fact should succeed");
}

#[test]
fn nested_structure_extraction() {
    // color(circle(red)); color(circle(X)).
    let circle = |t: Term| Term::Literal(lit("circle", vec![t]));
    let kb = kb(vec![belief("color", vec![circle(string("red"))])]);
    let mut s = VariableSupply::new();
    let x = Variable::new(&mut s);
    let found = answers(&kb, &literal("color", vec![circle(vt(&x))]), None);
    let bindings = found.first().expect("Nested unification failed");
    assert_eq!(bindings.get_view(&x), Some(&string("red")));
}

#[test]
fn partial_structural_mismatch() {
    let kb = kb(vec![belief("pair", vec![string("a"), string("b")])]);
    assert!(answers(&kb, &literal("pair", vec![string("a"), string("c")]), None).is_empty());
}

#[test]
fn a_negated_literal_nothing_matches_answers_once_with_the_bindings_as_they_are() {
    let kb = kb(vec![belief("item", vec![string("a")])]);
    let mut s = VariableSupply::new();
    let x = Variable::new(&mut s);
    let found = answers(&kb, &not(literal("other", vec![vt(&x)])), None);
    assert_eq!(found.len(), 1);
    assert_eq!(found[0].get_view(&x), None);
    assert!(answers(&kb, &not(literal("item", vec![vt(&x)])), None).is_empty());
}

#[test]
fn every_matching_fact_is_found() {
    let kb = kb(vec![
        belief("item", vec![string("a")]),
        belief("item", vec![string("b")]),
        belief("other", vec![string("z")]),
        belief("item", vec![string("c")]),
    ]);
    let mut s = VariableSupply::new();
    let x = Variable::new(&mut s);
    let found = answers(&kb, &literal("item", vec![vt(&x)]), None);
    assert_eq!(found.len(), 3);
    for name in ["a", "b", "c"] {
        assert!(found.iter().any(|b| b.get_view(&x) == Some(&string(name))));
    }
}

#[test]
fn every_combination_of_facts_that_meets_a_conjunction_is_answered() {
    let kb = kb(vec![
        belief("p", vec![string("a")]),
        belief("p", vec![string("b")]),
        belief("q", vec![string("a"), number(1.0)]),
        belief("q", vec![string("b"), number(2.0)]),
        belief("q", vec![string("a"), number(3.0)]),
    ]);
    let mut s = VariableSupply::new();
    let (x, y) = (Variable::new(&mut s), Variable::new(&mut s));
    let formula = and(vec![literal("p", vec![vt(&x)]), literal("q", vec![vt(&x), vt(&y)])]);
    let found = answers(&kb, &formula, None);
    assert_eq!(found.len(), 3);
    for (a, n) in [("a", 1.0), ("b", 2.0), ("a", 3.0)] {
        assert!(found.iter().any(|b| b.get_view(&x) == Some(&string(a)) && b.get_view(&y) == Some(&number(n))));
    }
}
