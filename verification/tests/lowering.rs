use ember_bdi::knowledge::lowering::{convert, LeafOperand};
use ember_bdi::knowledge::query::{
    ArithmeticExpression, CompareOperator, LogicalOperator, QueryFormula, RelationalOperator, RelationalQueryFormula,
};
use ember_bdi::literal::Literal;
use ember_bdi::term::{Atom, Structure, Term};

fn mock_literal(name: &str) -> Literal {
    Literal { negated: false, structure: Structure { functor: Atom(name.into()), arguments: None } }
}

fn mock_relational() -> RelationalQueryFormula {
    RelationalQueryFormula {
        operator: RelationalOperator::Compare { operator: CompareOperator::EqualTo, equal: true },
        operands: (
            ArithmeticExpression::Term(Term::Number(0.0f32.to_bits())),
            ArithmeticExpression::Term(Term::Number(0.0f32.to_bits())),
        ),
    }
}

fn or(operands: Vec<QueryFormula>) -> QueryFormula {
    QueryFormula::Logical { operator: LogicalOperator::Disjunction, operands }
}

fn and(operands: Vec<QueryFormula>) -> QueryFormula {
    QueryFormula::Logical { operator: LogicalOperator::Conjunction, operands }
}

#[test]
fn single_literal_is_one_conjunction_one_leaf() {
    let formula = QueryFormula::Literal(mock_literal("p"));
    let query = convert(&formula);
    assert_eq!(query.conjunctions.len(), 1);
    assert_eq!(query.conjunctions[0].len(), 1);
    assert!(matches!(query.conjunctions[0][0].operand, LeafOperand::Literal(..)));
    assert!(!query.conjunctions[0][0].negated);
}

#[test]
fn negated_literal_stays_a_plain_leaf() {
    let formula = QueryFormula::Not(Box::new(QueryFormula::Literal(mock_literal("p"))));
    let query = convert(&formula);
    assert_eq!(query.conjunctions.len(), 1);
    assert_eq!(query.conjunctions[0].len(), 1);
    assert!(matches!(query.conjunctions[0][0].operand, LeafOperand::Literal(..)));
    assert!(query.conjunctions[0][0].negated);
}

#[test]
fn negated_conjunction_becomes_a_single_subquery_leaf() {
    let formula = QueryFormula::Not(Box::new(and(vec![
        QueryFormula::Literal(mock_literal("p")),
        QueryFormula::Literal(mock_literal("q")),
    ])));
    let query = convert(&formula);
    assert_eq!(query.conjunctions.len(), 1);
    assert_eq!(query.conjunctions[0].len(), 1);
    let leaf = &query.conjunctions[0][0];
    assert!(leaf.negated);
    let LeafOperand::Group(inner) = &leaf.operand else {
        panic!("expected a Group leaf");
    };
    assert_eq!(inner.conjunctions.len(), 1);
    assert_eq!(inner.conjunctions[0].len(), 2);
}

#[test]
fn negated_disjunction_also_becomes_a_subquery_leaf() {
    let formula = QueryFormula::Not(Box::new(or(vec![
        QueryFormula::Literal(mock_literal("p")),
        QueryFormula::Literal(mock_literal("q")),
    ])));
    let query = convert(&formula);
    assert_eq!(query.conjunctions.len(), 1);
    assert_eq!(query.conjunctions[0].len(), 1);
    let leaf = &query.conjunctions[0][0];
    assert!(leaf.negated);
    let LeafOperand::Group(inner) = &leaf.operand else {
        panic!("expected a Group leaf");
    };
    assert_eq!(inner.conjunctions.len(), 2);
}

#[test]
fn disjunction_nested_in_conjunction_does_not_distribute() {
    let left = or(vec![QueryFormula::Literal(mock_literal("a")), QueryFormula::Literal(mock_literal("b"))]);
    let right = or(vec![QueryFormula::Literal(mock_literal("c")), QueryFormula::Literal(mock_literal("d"))]);
    let formula = and(vec![left, right]);
    let query = convert(&formula);
    assert_eq!(query.conjunctions.len(), 1);
    assert_eq!(query.conjunctions[0].len(), 2);
    for leaf in query.conjunctions[0].iter() {
        assert!(!leaf.negated);
        assert!(matches!(leaf.operand, LeafOperand::Group(_)));
    }
}

#[test]
fn nested_relational_negation() {
    let formula = and(vec![
        QueryFormula::Literal(mock_literal("p")),
        QueryFormula::Not(Box::new(QueryFormula::Relational(mock_relational()))),
    ]);
    let query = convert(&formula);
    assert_eq!(query.conjunctions.len(), 1);
    let ops = &query.conjunctions[0];
    assert_eq!(ops.len(), 2);
    assert!(!ops[0].negated);
    assert!(matches!(ops[0].operand, LeafOperand::Literal(..)));
    assert!(ops[1].negated);
    assert!(matches!(ops[1].operand, LeafOperand::Relational(..)));
}

#[test]
fn top_level_disjunction_gives_one_conjunction_per_operand() {
    let formula = or(vec![
        and(vec![QueryFormula::Literal(mock_literal("a")), QueryFormula::Literal(mock_literal("b"))]),
        QueryFormula::Literal(mock_literal("c")),
        QueryFormula::Not(Box::new(QueryFormula::Literal(mock_literal("d")))),
    ]);
    let query = convert(&formula);
    assert_eq!(query.conjunctions.len(), 3);
    assert_eq!(query.conjunctions[0].len(), 2);
    assert_eq!(query.conjunctions[1].len(), 1);
    assert_eq!(query.conjunctions[2].len(), 1);
    assert!(query.conjunctions[2][0].negated);
    match &query.conjunctions[1][0].operand {
        LeafOperand::Literal(l) => assert_eq!(l.structure.functor, Atom("c".into())),
        _ => panic!("expected a literal leaf"),
    }
}

#[test]
fn double_negation_nests_one_negated_subquery() {
    let formula = QueryFormula::Not(Box::new(QueryFormula::Not(Box::new(QueryFormula::Literal(mock_literal("p"))))));
    let query = convert(&formula);
    assert_eq!(query.conjunctions.len(), 1);
    let leaf = &query.conjunctions[0][0];
    assert!(leaf.negated);
    let LeafOperand::Group(inner) = &leaf.operand else {
        panic!("expected a Group leaf");
    };
    assert_eq!(inner.conjunctions.len(), 1);
    assert!(inner.conjunctions[0][0].negated);
    assert!(matches!(inner.conjunctions[0][0].operand, LeafOperand::Literal(..)));
}
