//! Query formulas: what the knowledge base is asked, and the numbers relational formulas
//! compare.

use vstd::prelude::*;

use crate::bindings::Bindings;
use crate::literal::Literal;
use crate::term::{Atom, LiteralModel, Structure, StructureModel, Term, TermModel, terms_model};

verus! {

broadcast use vstd::std_specs::vec::group_vec_axioms;

/// How the operands of a logical formula combine.
#[derive(Debug, Clone, Copy, PartialEq, Eq, Structural, PartialOrd, Ord)]
pub enum LogicalOperator {
    Conjunction,
    Disjunction,
}

/// A comparison of two numbers.
#[derive(Debug, Clone, Copy, PartialEq, Eq, Structural, PartialOrd, Ord)]
pub enum CompareOperator {
    LessThan,
    GreaterThan,
    EqualTo,
}

/// The relation a relational formula asks for.
#[derive(Debug, Clone, Copy, PartialEq, Eq, Structural, PartialOrd, Ord)]
pub enum RelationalOperator {
    /// A comparison; with `equal`, equal numbers satisfy it too.
    Compare { operator: CompareOperator, equal: bool },
    /// The two sides unify.
    Unify,
}

/// An operation on numbers.
#[derive(Debug, Clone, Copy, PartialEq, Eq, Structural, PartialOrd, Ord)]
pub enum ArithmeticOperator {
    Sum,
    Min,
    Div,
    Mul,
}

/// A term, or an operation on the values of expressions.
#[derive(Debug, PartialEq, Eq)]
pub enum ArithmeticExpression {
    Term(Term),
    Operation { operator: ArithmeticOperator, operands: Vec<ArithmeticExpression> },
}

/// A relation between two expressions.
#[derive(Debug, PartialEq, Eq)]
pub struct RelationalQueryFormula {
    pub operator: RelationalOperator,
    pub operands: (ArithmeticExpression, ArithmeticExpression),
}

/// A question to the knowledge base.
#[derive(Debug, PartialEq, Eq)]
pub enum QueryFormula {
    Not(Box<QueryFormula>),
    Logical { operator: LogicalOperator, operands: Vec<QueryFormula> },
    Literal(Literal),
    Relational(RelationalQueryFormula),
}

/// Why a relational formula cannot be evaluated.
#[derive(Debug, Clone, Copy, PartialEq, Eq, Structural, PartialOrd, Ord)]
pub enum EvaluationError {
    InsufficientlyBound,
    TypeMismatch,
    DivisionByZero,
}

impl EvaluationError {
    /// The message the error displays.
    pub fn message(&self) -> (s: &'static str)
        ensures
            s@ == match self {
                EvaluationError::InsufficientlyBound => "evaluation error: formula is insufficiently bound"@,
                EvaluationError::TypeMismatch => "evaluation error: type mismatch: expected a number for arithmetic"@,
                EvaluationError::DivisionByZero => "evaluation error: division by zero"@,
            },
    {
        match self {
            EvaluationError::InsufficientlyBound => "evaluation error: formula is insufficiently bound",
            EvaluationError::TypeMismatch => "evaluation error: type mismatch: expected a number for arithmetic",
            EvaluationError::DivisionByZero => "evaluation error: division by zero",
        }
    }
}

/// The mathematical value of an [`ArithmeticExpression`].
pub enum ExpressionModel {
    Term(TermModel),
    Operation(ArithmeticOperator, Seq<ExpressionModel>),
}

/// The mathematical value of a [`QueryFormula`].
pub enum FormulaModel {
    Not(Box<FormulaModel>),
    Logical(LogicalOperator, Seq<FormulaModel>),
    Literal(LiteralModel),
    Relational(RelationalOperator, ExpressionModel, ExpressionModel),
}

pub open spec fn expressions_model(es: Seq<ArithmeticExpression>) -> Seq<ExpressionModel>
    decreases es,
{
    Seq::new(es.len(), |i: int| if 0 <= i < es.len() { expression_model(es[i]) } else { ExpressionModel::Operation(ArithmeticOperator::Sum, Seq::empty()) })
}

pub open spec fn expression_model(e: ArithmeticExpression) -> ExpressionModel
    decreases e,
{
    match e {
        ArithmeticExpression::Term(t) => ExpressionModel::Term(t@),
        ArithmeticExpression::Operation { operator, operands } => ExpressionModel::Operation(operator, expressions_model(operands@)),
    }
}

pub open spec fn formulas_model(fs: Seq<QueryFormula>) -> Seq<FormulaModel>
    decreases fs,
{
    Seq::new(fs.len(), |i: int| if 0 <= i < fs.len() { formula_model(fs[i]) } else { FormulaModel::Logical(LogicalOperator::Conjunction, Seq::empty()) })
}

pub open spec fn formula_model(f: QueryFormula) -> FormulaModel
    decreases f,
{
    match f {
        QueryFormula::Not(inner) => FormulaModel::Not(Box::new(formula_model(*inner))),
        QueryFormula::Logical { operator, operands } => FormulaModel::Logical(operator, formulas_model(operands@)),
        QueryFormula::Literal(l) => FormulaModel::Literal(l@),
        QueryFormula::Relational(r) => FormulaModel::Relational(r.operator, expression_model(r.operands.0), expression_model(r.operands.1)),
    }
}

impl View for ArithmeticExpression {
    type V = ExpressionModel;

    open spec fn view(&self) -> ExpressionModel {
        expression_model(*self)
    }
}

impl View for QueryFormula {
    type V = FormulaModel;

    open spec fn view(&self) -> FormulaModel {
        formula_model(*self)
    }
}

/// A copy of each expression of the list.
fn clone_expressions(a: &Vec<ArithmeticExpression>) -> (r: Vec<ArithmeticExpression>)
    ensures
        expressions_model(r@) == expressions_model(a@),
    decreases a,
{
    let mut out: Vec<ArithmeticExpression> = Vec::new();
    let mut i: usize = 0;
    while i < a.len()
        invariant
            i <= a.len(),
            out@.len() == i,
            forall|j: int| 0 <= j < i ==> expression_model(#[trigger] out@[j]) == expression_model(a@[j]),
        decreases a.len() - i,
    {
        proof {
            assert(decreases_to!(*a => a[i as int]));
        }
        out.push(a[i].clone());
        i += 1;
    }
    assert(expressions_model(out@) =~= expressions_model(a@));
    out
}

impl Clone for ArithmeticExpression {
    fn clone(&self) -> (r: Self)
        ensures
            r@ == self@,
        decreases self,
    {
        match self {
            ArithmeticExpression::Term(t) => ArithmeticExpression::Term(t.clone()),
            ArithmeticExpression::Operation { operator, operands } => {
                proof {
                    assert(decreases_to!(*self => (*self)->operands));
                }
                ArithmeticExpression::Operation { operator: *operator, operands: clone_expressions(operands) }
            },
        }
    }
}

impl Clone for RelationalQueryFormula {
    fn clone(&self) -> (r: Self)
        ensures
            r.operator == self.operator,
            r.operands.0@ == self.operands.0@,
            r.operands.1@ == self.operands.1@,
    {
        RelationalQueryFormula { operator: self.operator, operands: (self.operands.0.clone(), self.operands.1.clone()) }
    }
}

/// A copy of each formula of the list.
fn clone_formulas(a: &Vec<QueryFormula>) -> (r: Vec<QueryFormula>)
    ensures
        formulas_model(r@) == formulas_model(a@),
    decreases a,
{
    let mut out: Vec<QueryFormula> = Vec::new();
    let mut i: usize = 0;
    while i < a.len()
        invariant
            i <= a.len(),
            out@.len() == i,
            forall|j: int| 0 <= j < i ==> formula_model(#[trigger] out@[j]) == formula_model(a@[j]),
        decreases a.len() - i,
    {
        proof {
            assert(decreases_to!(*a => a[i as int]));
        }
        out.push(a[i].clone());
        i += 1;
    }
    assert(formulas_model(out@) =~= formulas_model(a@));
    out
}

impl Clone for QueryFormula {
    fn clone(&self) -> (r: Self)
        ensures
            r@ == self@,
        decreases self,
    {
        match self {
            QueryFormula::Not(inner) => {
                proof {
                    assert(decreases_to!(*self => (*self)->Not_0));
                }
                QueryFormula::Not(Box::new((**inner).clone()))
            },
            QueryFormula::Logical { operator, operands } => {
                proof {
                    assert(decreases_to!(*self => (*self)->operands));
                }
                QueryFormula::Logical { operator: *operator, operands: clone_formulas(operands) }
            },
            QueryFormula::Literal(l) => QueryFormula::Literal(l.clone()),
            QueryFormula::Relational(r) => QueryFormula::Relational(r.clone()),
        }
    }
}

/// Whether two expression lists have the same value.
fn expressions_equal(a: &Vec<ArithmeticExpression>, b: &Vec<ArithmeticExpression>) -> (r: bool)
    ensures
        r == (expressions_model(a@) == expressions_model(b@)),
    decreases a,
{
    if a.len() != b.len() {
        proof {
            assert(expressions_model(a@).len() != expressions_model(b@).len());
        }
        return false;
    }
    let mut i: usize = 0;
    while i < a.len()
        invariant
            i <= a.len(),
            a.len() == b.len(),
            forall|j: int| 0 <= j < i ==> expressions_model(a@)[j] == expressions_model(b@)[j],
        decreases a.len() - i,
    {
        proof {
            assert(decreases_to!(*a => a[i as int]));
        }
        if !a[i].equals(&b[i]) {
            proof {
                assert(expressions_model(a@)[i as int] != expressions_model(b@)[i as int]);
            }
            return false;
        }
        i += 1;
    }
    assert(expressions_model(a@) =~= expressions_model(b@));
    true
}

impl ArithmeticExpression {
    /// Whether the two expressions have the same value.
    pub fn equals(&self, other: &ArithmeticExpression) -> (r: bool)
        ensures
            r == (self@ == other@),
        decreases self,
    {
        match (self, other) {
            (ArithmeticExpression::Term(x), ArithmeticExpression::Term(y)) => x.equals(y),
            (
                ArithmeticExpression::Operation { operator: o1, operands: a },
                ArithmeticExpression::Operation { operator: o2, operands: b },
            ) => {
                if *o1 != *o2 {
                    return false;
                }
                proof {
                    assert(decreases_to!(*self => (*self)->operands));
                }
                expressions_equal(a, b)
            },
            _ => false,
        }
    }
}

/// Whether two formula lists have the same value.
fn formulas_equal(a: &Vec<QueryFormula>, b: &Vec<QueryFormula>) -> (r: bool)
    ensures
        r == (formulas_model(a@) == formulas_model(b@)),
    decreases a,
{
    if a.len() != b.len() {
        proof {
            assert(formulas_model(a@).len() != formulas_model(b@).len());
        }
        return false;
    }
    let mut i: usize = 0;
    while i < a.len()
        invariant
            i <= a.len(),
            a.len() == b.len(),
            forall|j: int| 0 <= j < i ==> formulas_model(a@)[j] == formulas_model(b@)[j],
        decreases a.len() - i,
    {
        proof {
            assert(decreases_to!(*a => a[i as int]));
        }
        if !a[i].equals(&b[i]) {
            proof {
                assert(formulas_model(a@)[i as int] != formulas_model(b@)[i as int]);
            }
            return false;
        }
        i += 1;
    }
    assert(formulas_model(a@) =~= formulas_model(b@));
    true
}

impl QueryFormula {
    /// Whether the two formulas have the same value.
    pub fn equals(&self, other: &QueryFormula) -> (r: bool)
        ensures
            r == (self@ == other@),
        decreases self,
    {
        match (self, other) {
            (QueryFormula::Not(x), QueryFormula::Not(y)) => {
                proof {
                    assert(decreases_to!(*self => (*self)->Not_0));
                }
                let r = x.equals(y);
                r
            },
            (QueryFormula::Logical { operator: o1, operands: a }, QueryFormula::Logical { operator: o2, operands: b }) => {
                if *o1 != *o2 {
                    return false;
                }
                proof {
                    assert(decreases_to!(*self => (*self)->operands));
                }
                formulas_equal(a, b)
            },
            (QueryFormula::Literal(x), QueryFormula::Literal(y)) => x.equals(y),
            (QueryFormula::Relational(x), QueryFormula::Relational(y)) => {
                x.operator == y.operator && x.operands.0.equals(&y.operands.0) && x.operands.1.equals(&y.operands.1)
            },
            _ => false,
        }
    }

    /// All the operands hold.
    pub fn and(operands: Vec<QueryFormula>) -> (r: QueryFormula)
        ensures
            r@ == FormulaModel::Logical(LogicalOperator::Conjunction, formulas_model(operands@)),
    {
        QueryFormula::Logical { operator: LogicalOperator::Conjunction, operands }
    }

    /// One of the operands holds.
    pub fn or(operands: Vec<QueryFormula>) -> (r: QueryFormula)
        ensures
            r@ == FormulaModel::Logical(LogicalOperator::Disjunction, formulas_model(operands@)),
    {
        QueryFormula::Logical { operator: LogicalOperator::Disjunction, operands }
    }

    /// The formula does not hold.
    pub fn negate(self) -> (r: QueryFormula)
        ensures
            r@ == FormulaModel::Not(Box::new(self@)),
    {
        QueryFormula::Not(Box::new(self))
    }

    /// The literal `functor(arguments...)`, negated or not, as a formula.
    pub fn literal(negated: bool, functor: Atom, arguments: Option<Vec<Term>>) -> (r: QueryFormula)
        ensures
            r@ == FormulaModel::Literal(
                LiteralModel {
                    negated,
                    structure: StructureModel {
                        functor: functor.0@,
                        arguments: match arguments {
                            Some(a) => Some(terms_model(a@)),
                            None => None,
                        },
                    },
                },
            ),
    {
        QueryFormula::Literal(Literal { negated, structure: Structure { functor, arguments } })
    }
}

impl From<Literal> for QueryFormula {
    fn from(literal: Literal) -> (r: Self) {
        QueryFormula::Literal(literal)
    }
}

impl vstd::std_specs::convert::FromSpecImpl<Literal> for QueryFormula {
    open spec fn obeys_from_spec() -> bool {
        true
    }

    open spec fn from_spec(literal: Literal) -> QueryFormula {
        QueryFormula::Literal(literal)
    }
}

/// The number a term stands for under the bindings, as the bits of its `f32`: a number
/// itself, or a variable bound to one (following bound variables at most `fuel` times).
pub open spec fn number_of(b: Bindings, t: TermModel, fuel: nat) -> Result<u32, EvaluationError>
    decreases fuel,
{
    match t {
        TermModel::Number(n) => Ok(n),
        TermModel::Variable(v) => match b.bound_term(v) {
            None => Err(EvaluationError::InsufficientlyBound),
            Some(TermModel::Number(n)) => Ok(n),
            Some(TermModel::Variable(w)) => if fuel == 0 {
                Err(EvaluationError::InsufficientlyBound)
            } else {
                number_of(b, TermModel::Variable(w), (fuel - 1) as nat)
            },
            Some(_) => Err(EvaluationError::TypeMismatch),
        },
        _ => Err(EvaluationError::TypeMismatch),
    }
}

impl Bindings {
    /// How many entries the bindings hold.
    pub open spec fn entry_count(&self) -> nat {
        self.entries().len()
    }
}

/// The number the term stands for under the bindings, as the bits of its `f32`: a
/// number, or a variable bound to one, possibly through other bound variables.
pub fn resolve_to_number(term: &Term, bindings: &Bindings) -> (r: Result<u32, EvaluationError>)
    ensures
        r == number_of(*bindings, term@, bindings.entry_count()),
{
    let fuel = bindings.entry_count_exec();
    number_with_fuel(term, bindings, fuel)
}

fn number_with_fuel(term: &Term, bindings: &Bindings, fuel: usize) -> (r: Result<u32, EvaluationError>)
    ensures
        r == number_of(*bindings, term@, fuel as nat),
    decreases fuel,
{
    match term {
        Term::Number(n) => Ok(*n),
        Term::Variable(v) => match bindings.get(v) {
            None => Err(EvaluationError::InsufficientlyBound),
            Some(Term::Number(n)) => Ok(*n),
            Some(Term::Variable(w)) => {
                if fuel == 0 {
                    Err(EvaluationError::InsufficientlyBound)
                } else {
                    let next = Term::Variable(*w);
                    number_with_fuel(&next, bindings, fuel - 1)
                }
            },
            Some(_) => Err(EvaluationError::TypeMismatch),
        },
        _ => Err(EvaluationError::TypeMismatch),
    }
}


/// The key under which numbers are totally ordered: the bits of the `f32` as a signed
/// integer, with the magnitude bits flipped for negative numbers (the order of
/// `f32::total_cmp`).
pub open spec fn total_key(bits: u32) -> i32 {
    let x = bits as i32;
    x ^ ((((x >> 31i32) as u32) >> 1u32) as i32)
}

/// Two numbers have the same key exactly when they have the same bits.
pub proof fn lemma_total_key_injective(a: u32, b: u32)
    ensures
        total_key(a) == total_key(b) <==> a == b,
{
    assert(((a as i32) ^ (((((a as i32) >> 31i32) as u32) >> 1u32) as i32)) == ((b as i32) ^ (((((b as i32) >> 31i32) as u32) >> 1u32) as i32)) <==> a == b) by (bit_vector);
}

/// The key of a number.
fn total_key_exec(bits: u32) -> (r: i32)
    ensures
        r == total_key(bits),
{
    let x = bits as i32;
    x ^ ((((x >> 31i32) as u32) >> 1u32) as i32)
}

/// Whether a comparison of two numbers (given by their bits) holds in the total order of
/// numbers; with `equal`, equal numbers satisfy it too.
pub open spec fn comparison_holds(operator: CompareOperator, equal: bool, l: u32, r: u32) -> bool {
    let satisfied = match operator {
        CompareOperator::LessThan => total_key(l) < total_key(r),
        CompareOperator::GreaterThan => total_key(l) > total_key(r),
        CompareOperator::EqualTo => l == r,
    };
    satisfied || (equal && l == r)
}

/// Whether the comparison of the two numbers holds.
pub fn compare_numbers(operator: CompareOperator, equal: bool, l: u32, r: u32) -> (b: bool)
    ensures
        b == comparison_holds(operator, equal, l, r),
{
    let (kl, kr) = (total_key_exec(l), total_key_exec(r));
    proof {
        lemma_total_key_injective(l, r);
    }
    let satisfied = match operator {
        CompareOperator::LessThan => kl < kr,
        CompareOperator::GreaterThan => kl > kr,
        CompareOperator::EqualTo => kl == kr,
    };
    satisfied || (equal && kl == kr)
}

/// `a` comes before `b` in the total order of `f32` values by their bits (the IEEE 754
/// total order that `f32::total_cmp` follows): a value with the sign bit set comes before
/// one without it; of two without it, the one of smaller magnitude comes first; of two
/// with it, the one of larger magnitude comes first. On numbers that are not NaN this is
/// the order of their values, with -0 just before +0.
pub open spec fn total_order_less(a: u32, b: u32) -> bool {
    let negative_a = a >= 0x8000_0000u32;
    let negative_b = b >= 0x8000_0000u32;
    if negative_a != negative_b {
        negative_a
    } else if !negative_a {
        a < b
    } else {
        a > b
    }
}

/// Comparing two numbers follows the total order of `f32` values: `<` holds exactly when
/// the left number comes first, `>` exactly when the right one does, and `==` exactly when
/// their bits are the same.
pub proof fn lemma_comparison_follows_total_order(l: u32, r: u32)
    ensures
        comparison_holds(CompareOperator::LessThan, false, l, r) == total_order_less(l, r),
        comparison_holds(CompareOperator::GreaterThan, false, l, r) == total_order_less(r, l),
        comparison_holds(CompareOperator::EqualTo, false, l, r) == (l == r),
        comparison_holds(CompareOperator::LessThan, true, l, r) == (total_order_less(l, r) || l == r),
        comparison_holds(CompareOperator::GreaterThan, true, l, r) == (total_order_less(r, l) || l == r),
{
    assert((((l as i32) ^ (((((l as i32) >> 31i32) as u32) >> 1u32) as i32)) < ((r as i32) ^ (((((r as i32) >> 31i32) as u32) >> 1u32) as i32)))
        == (if (l >= 0x8000_0000u32) != (r >= 0x8000_0000u32) { l >= 0x8000_0000u32 } else if !(l >= 0x8000_0000u32) { l < r } else { l > r }))
        by (bit_vector);
    assert((((r as i32) ^ (((((r as i32) >> 31i32) as u32) >> 1u32) as i32)) < ((l as i32) ^ (((((l as i32) >> 31i32) as u32) >> 1u32) as i32)))
        == (if (r >= 0x8000_0000u32) != (l >= 0x8000_0000u32) { r >= 0x8000_0000u32 } else if !(r >= 0x8000_0000u32) { r < l } else { r > l }))
        by (bit_vector);
}

/// Of two numbers, exactly one is less than, equal to, or greater than the other.
pub proof fn lemma_comparison_trichotomy(l: u32, r: u32)
    ensures
        comparison_holds(CompareOperator::LessThan, false, l, r) as int + comparison_holds(CompareOperator::EqualTo, false, l, r) as int
            + comparison_holds(CompareOperator::GreaterThan, false, l, r) as int == 1,
        comparison_holds(CompareOperator::LessThan, true, l, r) == !comparison_holds(CompareOperator::GreaterThan, false, l, r),
{
    lemma_total_key_injective(l, r);
}

} // verus!
