//! The shape a query formula takes to be answered: a disjunction of conjunctions of
//! leaves. A formula that does not fit where it stands (a compound formula in leaf
//! position, negated or not) becomes a subquery of its own; negation is never
//! distributed into a compound formula.

use vstd::prelude::*;

use crate::literal::Literal;
use crate::term::LiteralModel;

use super::query::{
    expression_model, formulas_model, ExpressionModel, FormulaModel, LogicalOperator, QueryFormula,
    RelationalOperator, RelationalQueryFormula,
};

verus! {

broadcast use vstd::std_specs::vec::group_vec_axioms;

/// What a leaf asks.
#[derive(Debug)]
pub enum LeafOperand<'a> {
    Literal(&'a Literal),
    Relational(&'a RelationalQueryFormula),
    /// A compound formula, asked as a query of its own.
    Group(Box<QueryPlan<'a>>),
}

/// A leaf of a conjunction: what it asks, and whether it asks that it does not hold.
#[derive(Debug)]
pub struct Leaf<'a> {
    pub negated: bool,
    pub operand: LeafOperand<'a>,
}

/// A disjunction of conjunctions of leaves.
#[derive(Debug)]
pub struct QueryPlan<'a> {
    pub conjunctions: Vec<Vec<Leaf<'a>>>,
}

/// The mathematical value of a [`LeafOperand`].
pub enum OperandModel {
    Literal(LiteralModel),
    Relational(RelationalOperator, ExpressionModel, ExpressionModel),
    Group(Box<PlanModel>),
}

/// The mathematical value of a [`Leaf`].
pub struct LeafModel {
    pub negated: bool,
    pub operand: OperandModel,
}

/// The mathematical value of a [`QueryPlan`].
pub struct PlanModel {
    pub conjunctions: Seq<Seq<LeafModel>>,
}

pub open spec fn relational_model(r: RelationalQueryFormula) -> OperandModel {
    OperandModel::Relational(r.operator, expression_model(r.operands.0), expression_model(r.operands.1))
}

pub open spec fn operand_model(o: LeafOperand) -> OperandModel
    decreases o,
{
    match o {
        LeafOperand::Literal(l) => OperandModel::Literal(l@),
        LeafOperand::Relational(r) => relational_model(*r),
        LeafOperand::Group(p) => OperandModel::Group(Box::new(plan_model(*p))),
    }
}

pub open spec fn leaf_model(l: Leaf) -> LeafModel
    decreases l,
{
    LeafModel { negated: l.negated, operand: operand_model(l.operand) }
}

pub open spec fn leaves_model(ls: Seq<Leaf>) -> Seq<LeafModel>
    decreases ls,
{
    Seq::new(ls.len(), |i: int| if 0 <= i < ls.len() { leaf_model(ls[i]) } else { LeafModel { negated: false, operand: OperandModel::Group(Box::new(PlanModel { conjunctions: Seq::empty() })) } })
}

pub open spec fn plan_model(p: QueryPlan) -> PlanModel
    decreases p,
{
    PlanModel {
        conjunctions: Seq::new(
            p.conjunctions@.len(),
            |i: int| if 0 <= i < p.conjunctions@.len() { leaves_model(p.conjunctions@[i]@) } else { Seq::empty() },
        ),
    }
}

/// Orders the three lowering steps on one formula so that each one that works on the
/// same formula hands it to a lower one.
pub open spec fn rank_plan(f: FormulaModel) -> nat {
    match f {
        FormulaModel::Logical(_, _) => 1,
        _ => 2,
    }
}

pub open spec fn rank_conjunction(f: FormulaModel) -> nat {
    match f {
        FormulaModel::Logical(LogicalOperator::Conjunction, _) => 0,
        FormulaModel::Logical(LogicalOperator::Disjunction, _) => 3,
        _ => 1,
    }
}

pub open spec fn rank_leaf(f: FormulaModel) -> nat {
    match f {
        FormulaModel::Logical(_, _) => 2,
        _ => 0,
    }
}

/// A disjunction becomes one conjunction per operand; anything else is a single
/// conjunction.
pub open spec fn lowered(f: FormulaModel) -> PlanModel
    decreases f, rank_plan(f),
{
    match f {
        FormulaModel::Logical(LogicalOperator::Disjunction, ops) => PlanModel {
            conjunctions: Seq::new(ops.len(), |i: int| if 0 <= i < ops.len() { lowered_conjunction(ops[i]) } else { Seq::empty() }),
        },
        _ => PlanModel { conjunctions: seq![lowered_conjunction(f)] },
    }
}

/// A conjunction becomes one leaf per operand; anything else is a single leaf.
pub open spec fn lowered_conjunction(f: FormulaModel) -> Seq<LeafModel>
    decreases f, rank_conjunction(f),
{
    match f {
        FormulaModel::Logical(LogicalOperator::Conjunction, ops) => Seq::new(
            ops.len(),
            |i: int| if 0 <= i < ops.len() { lowered_leaf(ops[i]) } else { LeafModel { negated: false, operand: OperandModel::Group(Box::new(PlanModel { conjunctions: Seq::empty() })) } },
        ),
        _ => seq![lowered_leaf(f)],
    }
}

/// A literal or relation is a leaf, negated or not; a compound formula, negated or not,
/// is a subquery.
pub open spec fn lowered_leaf(f: FormulaModel) -> LeafModel
    decreases f, rank_leaf(f),
{
    match f {
        FormulaModel::Literal(l) => LeafModel { negated: false, operand: OperandModel::Literal(l) },
        FormulaModel::Relational(o, a, b) => LeafModel { negated: false, operand: OperandModel::Relational(o, a, b) },
        FormulaModel::Not(inner) => match *inner {
            FormulaModel::Literal(l) => LeafModel { negated: true, operand: OperandModel::Literal(l) },
            FormulaModel::Relational(o, a, b) => LeafModel { negated: true, operand: OperandModel::Relational(o, a, b) },
            _ => LeafModel { negated: true, operand: OperandModel::Group(Box::new(lowered(*inner))) },
        },
        FormulaModel::Logical(_, _) => LeafModel { negated: false, operand: OperandModel::Group(Box::new(lowered(f))) },
    }
}


/// The plan of a formula: see [`lowered`].
pub fn convert<'a>(formula: &'a QueryFormula) -> (r: QueryPlan<'a>)
    ensures
        plan_model(r) == lowered(formula@),
{
    transform(formula)
}

fn transform<'a>(formula: &'a QueryFormula) -> (r: QueryPlan<'a>)
    ensures
        plan_model(r) == lowered(formula@),
    decreases formula, rank_plan(formula@),
{
    match formula {
        QueryFormula::Logical { operator: LogicalOperator::Disjunction, operands } => {
            let ghost ops = formulas_model(operands@);
            let mut conjunctions: Vec<Vec<Leaf<'a>>> = Vec::new();
            let mut i: usize = 0;
            while i < operands.len()
                invariant
                    i <= operands@.len(),
                    ops == formulas_model(operands@),
                    *formula == (QueryFormula::Logical { operator: LogicalOperator::Disjunction, operands: *operands }),
                    conjunctions@.len() == i,
                    forall|j: int| 0 <= j < i ==> #[trigger] leaves_model(conjunctions@[j]@) == lowered_conjunction(ops[j]),
                decreases operands@.len() - i,
            {
                proof {
                    assert(decreases_to!(*formula => (*formula)->operands));
                    assert(decreases_to!((*formula)->operands => operands[i as int]));
                }
                let c = transform_conjunction(&operands[i]);
                conjunctions.push(c);
                i += 1;
            }
            let r = QueryPlan { conjunctions };
            proof {
                let lp = lowered(formula@);
                assert(plan_model(r).conjunctions =~= lp.conjunctions) by {
                    assert forall|j: int| 0 <= j < lp.conjunctions.len() implies plan_model(r).conjunctions[j] == lp.conjunctions[j] by {
                        assert(leaves_model(r.conjunctions@[j]@) == lowered_conjunction(ops[j]));
                    }
                }
            }
            r
        },
        _ => {
            let c = transform_conjunction(formula);
            let conjunctions = vec![c];
            let r = QueryPlan { conjunctions };
            proof {
                assert(plan_model(r).conjunctions =~= lowered(formula@).conjunctions);
            }
            r
        },
    }
}

fn transform_conjunction<'a>(formula: &'a QueryFormula) -> (r: Vec<Leaf<'a>>)
    ensures
        leaves_model(r@) == lowered_conjunction(formula@),
    decreases formula, rank_conjunction(formula@),
{
    match formula {
        QueryFormula::Logical { operator: LogicalOperator::Conjunction, operands } => {
            let ghost ops = formulas_model(operands@);
            let mut leaves: Vec<Leaf<'a>> = Vec::new();
            let mut i: usize = 0;
            while i < operands.len()
                invariant
                    i <= operands@.len(),
                    ops == formulas_model(operands@),
                    *formula == (QueryFormula::Logical { operator: LogicalOperator::Conjunction, operands: *operands }),
                    leaves@.len() == i,
                    forall|j: int| 0 <= j < i ==> #[trigger] leaf_model(leaves@[j]) == lowered_leaf(ops[j]),
                decreases operands@.len() - i,
            {
                proof {
                    assert(decreases_to!(*formula => (*formula)->operands));
                    assert(decreases_to!((*formula)->operands => operands[i as int]));
                }
                let leaf = transform_leaf(&operands[i]);
                leaves.push(leaf);
                i += 1;
            }
            proof {
                let lc = lowered_conjunction(formula@);
                assert forall|j: int| 0 <= j < lc.len() implies leaves_model(leaves@)[j] == lc[j] by {
                    assert(leaf_model(leaves@[j]) == lowered_leaf(ops[j]));
                }
                assert(leaves_model(leaves@) =~= lc);
            }
            leaves
        },
        _ => {
            let leaf = transform_leaf(formula);
            let leaves = vec![leaf];
            proof {
                assert(leaves_model(leaves@) =~= lowered_conjunction(formula@));
            }
            leaves
        },
    }
}

fn transform_leaf<'a>(formula: &'a QueryFormula) -> (r: Leaf<'a>)
    ensures
        leaf_model(r) == lowered_leaf(formula@),
    decreases formula, rank_leaf(formula@),
{
    match formula {
        QueryFormula::Literal(l) => {
            let r = Leaf { negated: false, operand: LeafOperand::Literal(l) };
            assert(leaf_model(r) == LeafModel { negated: false, operand: OperandModel::Literal(l@) });
            r
        },
        QueryFormula::Relational(rel) => {
            let r = Leaf { negated: false, operand: LeafOperand::Relational(rel) };
            assert(leaf_model(r) == LeafModel { negated: false, operand: relational_model(*rel) });
            r
        },
        QueryFormula::Not(inner) => {
            let inner_ref: &'a QueryFormula = &**inner;
            match inner_ref {
                QueryFormula::Literal(l) => {
                    let r = Leaf { negated: true, operand: LeafOperand::Literal(l) };
                    assert(leaf_model(r) == LeafModel { negated: true, operand: OperandModel::Literal(l@) });
                    r
                },
                QueryFormula::Relational(rel) => {
                    let r = Leaf { negated: true, operand: LeafOperand::Relational(rel) };
                    assert(leaf_model(r) == LeafModel { negated: true, operand: relational_model(*rel) });
                    r
                },
                _ => {
                    proof {
                        assert(decreases_to!(*formula => (*formula)->Not_0));
                    }
                    let plan = transform(inner_ref);
                    let r = Leaf { negated: true, operand: LeafOperand::Group(Box::new(plan)) };
                    assert(leaf_model(r) == LeafModel { negated: true, operand: OperandModel::Group(Box::new(plan_model(plan))) });
                    r
                },
            }
        },
        QueryFormula::Logical { .. } => {
            let plan = transform(formula);
            let r = Leaf { negated: false, operand: LeafOperand::Group(Box::new(plan)) };
            assert(leaf_model(r) == LeafModel { negated: false, operand: OperandModel::Group(Box::new(plan_model(plan))) });
            r
        },
    }
}


/// Whether a formula holds, given which literals and which relations hold.
pub open spec fn formula_holds(f: FormulaModel, lit: spec_fn(LiteralModel) -> bool, rel: spec_fn(OperandModel) -> bool) -> bool
    decreases f,
{
    match f {
        FormulaModel::Not(inner) => !formula_holds(*inner, lit, rel),
        FormulaModel::Logical(LogicalOperator::Conjunction, ops) => all_hold(ops, lit, rel),
        FormulaModel::Logical(LogicalOperator::Disjunction, ops) => any_holds(ops, lit, rel),
        FormulaModel::Literal(l) => lit(l),
        FormulaModel::Relational(o, a, b) => rel(OperandModel::Relational(o, a, b)),
    }
}

/// Whether every formula of a sequence holds.
pub open spec fn all_hold(ops: Seq<FormulaModel>, lit: spec_fn(LiteralModel) -> bool, rel: spec_fn(OperandModel) -> bool) -> bool
    decreases ops,
{
    if ops.len() == 0 {
        true
    } else {
        all_hold(ops.subrange(0, ops.len() - 1), lit, rel) && formula_holds(ops[ops.len() - 1], lit, rel)
    }
}

/// Whether some formula of a sequence holds.
pub open spec fn any_holds(ops: Seq<FormulaModel>, lit: spec_fn(LiteralModel) -> bool, rel: spec_fn(OperandModel) -> bool) -> bool
    decreases ops,
{
    if ops.len() == 0 {
        false
    } else {
        any_holds(ops.subrange(0, ops.len() - 1), lit, rel) || formula_holds(ops[ops.len() - 1], lit, rel)
    }
}

/// Whether a plan holds: one of its conjunctions has all its leaves hold.
pub open spec fn plan_holds(p: PlanModel, lit: spec_fn(LiteralModel) -> bool, rel: spec_fn(OperandModel) -> bool) -> bool
    decreases p,
{
    any_conjunction_holds(p.conjunctions, lit, rel)
}

pub open spec fn any_conjunction_holds(cs: Seq<Seq<LeafModel>>, lit: spec_fn(LiteralModel) -> bool, rel: spec_fn(OperandModel) -> bool) -> bool
    decreases cs,
{
    if cs.len() == 0 {
        false
    } else {
        any_conjunction_holds(cs.subrange(0, cs.len() - 1), lit, rel) || conjunction_holds(cs[cs.len() - 1], lit, rel)
    }
}

pub open spec fn conjunction_holds(c: Seq<LeafModel>, lit: spec_fn(LiteralModel) -> bool, rel: spec_fn(OperandModel) -> bool) -> bool
    decreases c,
{
    if c.len() == 0 {
        true
    } else {
        conjunction_holds(c.subrange(0, c.len() - 1), lit, rel) && leaf_holds(c[c.len() - 1], lit, rel)
    }
}

pub open spec fn leaf_holds(l: LeafModel, lit: spec_fn(LiteralModel) -> bool, rel: spec_fn(OperandModel) -> bool) -> bool
    decreases l,
{
    let x = match l.operand {
        OperandModel::Literal(m) => lit(m),
        OperandModel::Relational(o, a, b) => rel(OperandModel::Relational(o, a, b)),
        OperandModel::Group(p) => plan_holds(*p, lit, rel),
    };
    if l.negated { !x } else { x }
}

/// Two sequences of disjuncts that hold pointwise alike hold alike as disjunctions.
proof fn lemma_any_pointwise(cs: Seq<Seq<LeafModel>>, ops: Seq<FormulaModel>, lit: spec_fn(LiteralModel) -> bool, rel: spec_fn(OperandModel) -> bool)
    requires
        cs.len() == ops.len(),
        forall|i: int| 0 <= i < ops.len() ==> #[trigger] conjunction_holds(cs[i], lit, rel) == formula_holds(ops[i], lit, rel),
    ensures
        any_conjunction_holds(cs, lit, rel) == any_holds(ops, lit, rel),
    decreases ops.len(),
{
    if ops.len() > 0 {
        let n = ops.len() - 1;
        let cs1 = cs.subrange(0, n);
        let ops1 = ops.subrange(0, n);
        assert forall|i: int| 0 <= i < ops1.len() implies #[trigger] conjunction_holds(cs1[i], lit, rel) == formula_holds(ops1[i], lit, rel) by {
            assert(cs1[i] == cs[i]);
            assert(ops1[i] == ops[i]);
        }
        lemma_any_pointwise(cs1, ops1, lit, rel);
        assert(conjunction_holds(cs[n], lit, rel) == formula_holds(ops[n], lit, rel));
    }
}

/// Two sequences of conjuncts that hold pointwise alike hold alike as conjunctions.
proof fn lemma_all_pointwise(c: Seq<LeafModel>, ops: Seq<FormulaModel>, lit: spec_fn(LiteralModel) -> bool, rel: spec_fn(OperandModel) -> bool)
    requires
        c.len() == ops.len(),
        forall|i: int| 0 <= i < ops.len() ==> #[trigger] leaf_holds(c[i], lit, rel) == formula_holds(ops[i], lit, rel),
    ensures
        conjunction_holds(c, lit, rel) == all_hold(ops, lit, rel),
    decreases ops.len(),
{
    if ops.len() > 0 {
        let n = ops.len() - 1;
        let c1 = c.subrange(0, n);
        let ops1 = ops.subrange(0, n);
        assert forall|i: int| 0 <= i < ops1.len() implies #[trigger] leaf_holds(c1[i], lit, rel) == formula_holds(ops1[i], lit, rel) by {
            assert(c1[i] == c[i]);
            assert(ops1[i] == ops[i]);
        }
        lemma_all_pointwise(c1, ops1, lit, rel);
        assert(leaf_holds(c[n], lit, rel) == formula_holds(ops[n], lit, rel));
    }
}

/// Lowering keeps the meaning of a formula: whatever holds of literals and relations, the
/// plan holds exactly when the formula does.
pub proof fn lemma_lowered_holds(f: FormulaModel, lit: spec_fn(LiteralModel) -> bool, rel: spec_fn(OperandModel) -> bool)
    ensures
        plan_holds(lowered(f), lit, rel) == formula_holds(f, lit, rel),
    decreases f, rank_plan(f),
{
    match f {
        FormulaModel::Logical(LogicalOperator::Disjunction, ops) => {
            let p = lowered(f);
            assert forall|i: int| 0 <= i < ops.len() implies #[trigger] conjunction_holds(p.conjunctions[i], lit, rel) == formula_holds(ops[i], lit, rel) by {
                lemma_lowered_conjunction_holds(ops[i], lit, rel);
            }
            lemma_any_pointwise(p.conjunctions, ops, lit, rel);
        },
        _ => {
            lemma_lowered_conjunction_holds(f, lit, rel);
            let p = lowered(f);
            assert(p.conjunctions.subrange(0, 0) =~= Seq::<Seq<LeafModel>>::empty());
        },
    }
}

/// Lowering a formula to one conjunction keeps its meaning.
pub proof fn lemma_lowered_conjunction_holds(f: FormulaModel, lit: spec_fn(LiteralModel) -> bool, rel: spec_fn(OperandModel) -> bool)
    ensures
        conjunction_holds(lowered_conjunction(f), lit, rel) == formula_holds(f, lit, rel),
    decreases f, rank_conjunction(f),
{
    match f {
        FormulaModel::Logical(LogicalOperator::Conjunction, ops) => {
            let c = lowered_conjunction(f);
            assert forall|i: int| 0 <= i < ops.len() implies #[trigger] leaf_holds(c[i], lit, rel) == formula_holds(ops[i], lit, rel) by {
                lemma_lowered_leaf_holds(ops[i], lit, rel);
            }
            lemma_all_pointwise(c, ops, lit, rel);
        },
        _ => {
            lemma_lowered_leaf_holds(f, lit, rel);
            let c = lowered_conjunction(f);
            assert(c.len() == 1 && c[0] == lowered_leaf(f));
            assert(c.subrange(0, 0) =~= Seq::<LeafModel>::empty());
            assert(conjunction_holds(c.subrange(0, 0), lit, rel));
        },
    }
}

/// Lowering a formula to one leaf keeps its meaning.
pub proof fn lemma_lowered_leaf_holds(f: FormulaModel, lit: spec_fn(LiteralModel) -> bool, rel: spec_fn(OperandModel) -> bool)
    ensures
        leaf_holds(lowered_leaf(f), lit, rel) == formula_holds(f, lit, rel),
    decreases f, rank_leaf(f),
{
    match f {
        FormulaModel::Not(inner) => match *inner {
            FormulaModel::Literal(_) => {},
            FormulaModel::Relational(_, _, _) => {},
            _ => {
                lemma_lowered_holds(*inner, lit, rel);
                assert(formula_holds(f, lit, rel) == !formula_holds(*inner, lit, rel));
                assert(lowered_leaf(f) == LeafModel { negated: true, operand: OperandModel::Group(Box::new(lowered(*inner))) });
                assert(leaf_holds(lowered_leaf(f), lit, rel) == !plan_holds(lowered(*inner), lit, rel));
            },
        },
        FormulaModel::Logical(_, _) => {
            lemma_lowered_holds(f, lit, rel);
        },
        _ => {},
    }
}

} // verus!
