//! Answering a query against the knowledge base: every set of bindings found under which
//! the query holds, in the order the search finds them.
//!
//! The plan of the query is searched depth first: the conjunctions in turn, the leaves of
//! a conjunction from left to right, each literal against the knowledge in the order it
//! was added. A negated leaf holds when its operand has no answer (the world is closed). A
//! rule is answered by searching its body, at most `depth` rules deep.

use vstd::prelude::*;

use crate::bindings::{all_constraints, distinct_ground, ground_entries, well_kept, Bindings};
use crate::literal::Literal;
use crate::resolve::{lemma_entails, lemma_entails_equal};
use crate::term::{all_ground, ground, atom_and_arity_of, LiteralModel, StructureModel, Term, TermModel};
use crate::unification::substitution::{apply, lemma_satisfies_concat, satisfies};
use crate::unification::error::UnificationError;
use crate::unification::traits::{apply_structure, ground_structure, structure_constraints, structures_unifiable};

use super::lowering::{convert, leaf_model, leaves_model, operand_model, plan_model, Leaf, LeafModel, LeafOperand, OperandModel, PlanModel, QueryPlan};
use super::query::{
    comparison_holds, compare_numbers, number_of, resolve_to_number, ArithmeticExpression, CompareOperator, EvaluationError,
    ExpressionModel, FormulaModel, QueryFormula, RelationalOperator, RelationalQueryFormula,
};
use super::{KnowledgeBase, KnowledgeModel};

verus! {

broadcast use vstd::std_specs::vec::group_vec_axioms;

/// Computes the value of an arithmetic operation under bindings: the bits of the `f32` it
/// comes to.
pub trait Evaluate {
    fn evaluate(&self, expr: &ArithmeticExpression, bindings: &Bindings) -> Result<u32, EvaluationError>;
}

/// Under `f`, the literal is a belief held, or the head of a rule held.
pub open spec fn matches_knowledge(f: spec_fn(u32) -> TermModel, m: LiteralModel, kb: Set<KnowledgeModel>) -> bool {
    exists|k: KnowledgeModel|
        #[trigger] kb.contains(k) && k.0.negated == m.negated && apply_structure(f, k.0.structure) == apply_structure(f, m.structure)
}

/// What an answer says of a leaf under `f`: a literal is held; the sides of a unification
/// of terms are equal; a subquery has a conjunction that holds so. Nothing is said of a
/// negated leaf or a comparison.
pub open spec fn leaf_sound(f: spec_fn(u32) -> TermModel, l: LeafModel, kb: Set<KnowledgeModel>) -> bool
    decreases l,
{
    if l.negated {
        true
    } else {
        match l.operand {
            OperandModel::Literal(m) => matches_knowledge(f, m, kb),
            OperandModel::Relational(RelationalOperator::Unify, ExpressionModel::Term(a), ExpressionModel::Term(b)) => apply(f, a) == apply(f, b),
            OperandModel::Relational(_, _, _) => true,
            OperandModel::Group(p) => plan_sound(f, *p, kb),
        }
    }
}

/// What an answer says of each leaf of a conjunction under `f`.
pub open spec fn conjunction_sound(f: spec_fn(u32) -> TermModel, c: Seq<LeafModel>, kb: Set<KnowledgeModel>) -> bool
    decreases c,
{
    if c.len() == 0 {
        true
    } else {
        leaf_sound(f, c[0], kb) && conjunction_sound(f, c.subrange(1, c.len() as int), kb)
    }
}

/// What an answer says of some conjunction among them under `f`.
pub open spec fn some_conjunction_sound(f: spec_fn(u32) -> TermModel, cs: Seq<Seq<LeafModel>>, kb: Set<KnowledgeModel>) -> bool
    decreases cs,
{
    if cs.len() == 0 {
        false
    } else {
        conjunction_sound(f, cs[0], kb) || some_conjunction_sound(f, cs.subrange(1, cs.len() as int), kb)
    }
}

/// What an answer says of a plan under `f`.
pub open spec fn plan_sound(f: spec_fn(u32) -> TermModel, p: PlanModel, kb: Set<KnowledgeModel>) -> bool
    decreases p,
{
    some_conjunction_sound(f, p.conjunctions, kb)
}

/// The bindings `a` entail those `b` were found under and what is said of the leaf: every
/// substitution that meets the constraints of `a` meets those of `b` and makes the leaf
/// sound.
pub open spec fn entails_leaf(a: Bindings, b: Bindings, l: LeafModel, kb: Set<KnowledgeModel>) -> bool {
    forall|f: spec_fn(u32) -> TermModel| #[trigger] satisfies(f, a.constraints()) ==> satisfies(f, b.constraints()) && leaf_sound(f, l, kb)
}

/// The same of a conjunction.
pub open spec fn entails_conjunction(a: Bindings, b: Bindings, c: Seq<LeafModel>, kb: Set<KnowledgeModel>) -> bool {
    forall|f: spec_fn(u32) -> TermModel| #[trigger] satisfies(f, a.constraints()) ==> satisfies(f, b.constraints()) && conjunction_sound(f, c, kb)
}

/// The same of a plan.
pub open spec fn entails_plan(a: Bindings, b: Bindings, p: PlanModel, kb: Set<KnowledgeModel>) -> bool {
    forall|f: spec_fn(u32) -> TermModel| #[trigger] satisfies(f, a.constraints()) ==> satisfies(f, b.constraints()) && plan_sound(f, p, kb)
}

/// Bindings that entail a conjunction holding of a plan entail the plan.
proof fn lemma_some_conjunction(f: spec_fn(u32) -> TermModel, cs: Seq<Seq<LeafModel>>, j: int, kb: Set<KnowledgeModel>)
    requires
        0 <= j < cs.len(),
        conjunction_sound(f, cs[j], kb),
    ensures
        some_conjunction_sound(f, cs, kb),
    decreases j,
{
    if j > 0 {
        let rest = cs.subrange(1, cs.len() as int);
        assert(rest[j - 1] == cs[j]);
        lemma_some_conjunction(f, rest, j - 1, kb);
    }
}

/// Under every substitution that meets the constraints of `b`, structures that its
/// solution makes equal are equal.
pub proof fn lemma_entails_equal_structure(b: Bindings, f: spec_fn(u32) -> TermModel, s: StructureModel, t: StructureModel)
    requires
        apply_structure(b.solution(), s) == apply_structure(b.solution(), t),
        satisfies(f, b.constraints()),
    ensures
        apply_structure(f, s) == apply_structure(f, t),
{
    let x = TermModel::Literal(LiteralModel { negated: false, structure: s });
    let y = TermModel::Literal(LiteralModel { negated: false, structure: t });
    assert(apply(b.solution(), x) == apply(b.solution(), y));
    lemma_entails_equal(b, f, x, y);
    assert(apply(f, x) == TermModel::Literal(LiteralModel { negated: false, structure: apply_structure(f, s) }));
}

/// The knowledge holds a belief or a rule head that the literal could match: one with its
/// negation, functor and number of arguments.
pub open spec fn relevant(kb: Set<KnowledgeModel>, m: LiteralModel) -> bool {
    exists|k: KnowledgeModel| #[trigger] kb.contains(k) && k.0.negated == m.negated && atom_and_arity_of(k.0.structure) == atom_and_arity_of(m.structure)
}

/// The two bindings hold the same entries and aliases.
pub open spec fn alike(a: Bindings, b: Bindings) -> bool {
    a.entries() == b.entries() && a.alias_pairs() == b.alias_pairs()
}

/// A leaf the search answers with the bindings as they are, whatever else holds: a
/// negated literal that nothing known could match (the world is closed), or a comparison
/// of two terms that holds under the bindings (or, negated, does not).
pub open spec fn surely_holds(b: Bindings, l: LeafModel, kb: Set<KnowledgeModel>) -> bool {
    match l.operand {
        OperandModel::Literal(m) => l.negated && !relevant(kb, m),
        OperandModel::Relational(RelationalOperator::Compare { operator, equal }, ExpressionModel::Term(x), ExpressionModel::Term(y)) =>
            terms_compare(b, operator, equal, x, y) != l.negated,
        _ => false,
    }
}

/// Some fact held (a belief that is no rule) matches the literal: a fact with no variable
/// that unifies with the literal by giving each variable of the literal, each met once, a
/// term of the fact.
pub open spec fn held_match(m: LiteralModel, kb: Set<KnowledgeModel>) -> bool {
    exists|g: LiteralModel| {
        &&& #[trigger] kb.contains((g, None::<FormulaModel>))
        &&& g.negated == m.negated
        &&& structure_constraints(g.structure, m.structure) matches Ok(cs) && distinct_ground(cs)
    }
}

/// The bindings hold no entry and no alias.
pub open spec fn bindings_empty(b: Bindings) -> bool {
    b.entries().len() == 0 && b.alias_pairs().len() == 0
}

/// `g` is a fact without variables that unifies with the literal `m` by giving each
/// variable of `m`, each met once, a term of `g`.
pub open spec fn ground_fact_for(g: LiteralModel, m: LiteralModel) -> bool {
    &&& match g.structure.arguments {
        Some(a) => all_ground(a),
        None => true,
    }
    &&& g.negated == m.negated
    &&& structure_constraints(g.structure, m.structure) matches Ok(cs) && distinct_ground(cs)
}

/// Under `f` the leaf asks, without negation, for a literal that `f` makes a fact held
/// whose arguments hold no variable.
pub open spec fn fact_meets(f: spec_fn(u32) -> TermModel, l: LeafModel, kb: Set<KnowledgeModel>) -> bool {
    !l.negated && match l.operand {
        OperandModel::Literal(m) => exists|g: LiteralModel| {
            &&& #[trigger] kb.contains((g, None::<FormulaModel>))
            &&& ground_structure(g.structure)
            &&& g.negated == m.negated
            &&& apply_structure(f, m.structure) == g.structure
        },
        _ => false,
    }
}

/// Under `f` every leaf of the conjunction asks for a literal that `f` makes such a fact.
pub open spec fn facts_meet(f: spec_fn(u32) -> TermModel, c: Seq<LeafModel>, kb: Set<KnowledgeModel>) -> bool {
    forall|t: int| 0 <= t < c.len() ==> fact_meets(f, #[trigger] c[t], kb)
}

/// `f` is an instance of one of the answers: it meets the answer's constraints. That
/// answer binds no variable to a term with variables, and is well kept.
pub open spec fn covered(r: Seq<Bindings>, f: spec_fn(u32) -> TermModel) -> bool {
    exists|k: int| 0 <= k < r.len() && #[trigger] satisfies(f, r[k].constraints()) && ground_entries(r[k]) && well_kept(r[k])
}

/// Under `f`, which meets the bindings (well kept, binding no variable to a term with
/// variables), the literal `m` is the held fact `item`, whose arguments hold no variable.
spec fn meets_fact_item(f: spec_fn(u32) -> TermModel, cur: Bindings, m: LiteralModel, item: KnowledgeModel) -> bool {
    &&& ground_entries(cur) && well_kept(cur) && satisfies(f, cur.constraints())
    &&& item.1 is None && ground_structure(item.0.structure) && item.0.negated == m.negated
    &&& apply_structure(f, m.structure) == item.0.structure
}

/// Answers that start with the answers `a`, or end with them, cover what `a` covers.
proof fn lemma_covered_grow(a: Seq<Bindings>, b: Seq<Bindings>, f: spec_fn(u32) -> TermModel, shift: int)
    requires
        covered(a, f),
        0 <= shift,
        shift + a.len() <= b.len(),
        forall|k: int| 0 <= k < a.len() ==> b[k + shift] == #[trigger] a[k],
    ensures
        covered(b, f),
{
    let k = choose|k: int| 0 <= k < a.len() && #[trigger] satisfies(f, a[k].constraints()) && ground_entries(a[k]) && well_kept(a[k]);
    assert(b[k + shift] == a[k]);
    assert(satisfies(f, b[k + shift].constraints()));
}

/// Some of the answers makes the literal `m` the fact `g`.
pub open spec fn finds(r: Seq<Bindings>, m: LiteralModel, g: LiteralModel) -> bool {
    exists|k: int| 0 <= k < r.len() && apply_structure(#[trigger] r[k].solution(), m.structure) == g.structure
}

/// Answers that start with the answers `a` find what `a` finds.
proof fn lemma_finds_grow(a: Seq<Bindings>, b: Seq<Bindings>, m: LiteralModel, g: LiteralModel)
    requires
        a.len() <= b.len(),
        b.take(a.len() as int) == a,
        finds(a, m, g),
    ensures
        finds(b, m, g),
{
    let k = choose|k: int| 0 <= k < a.len() && apply_structure(#[trigger] a[k].solution(), m.structure) == g.structure;
    assert(b[k] == b.take(a.len() as int)[k]);
}

/// Bindings with the same entries and aliases have the same solution.
proof fn lemma_alike_solution(a: Bindings, b: Bindings)
    requires
        alike(a, b),
    ensures
        a.solution() == b.solution(),
{
    assert forall|v: u32| #[trigger] a.solution()(v) == b.solution()(v) by {
        assert(a.bound_term(v) == b.bound_term(v));
        assert(a.renaming() =~= b.renaming());
    }
    assert(a.solution() =~= b.solution());
}

/// Answers that end with the answers `b` find what `b` finds.
proof fn lemma_finds_suffix(a: Seq<Bindings>, b: Seq<Bindings>, m: LiteralModel, g: LiteralModel)
    requires
        finds(b, m, g),
    ensures
        finds(a + b, m, g),
{
    let k = choose|k: int| 0 <= k < b.len() && apply_structure(#[trigger] b[k].solution(), m.structure) == g.structure;
    assert((a + b)[a.len() + k] == b[k]);
}

/// A term without variables is left as it is by any substitution.
pub proof fn lemma_apply_ground(f: spec_fn(u32) -> TermModel, t: TermModel)
    requires
        ground(t),
    ensures
        apply(f, t) == t,
    decreases t,
{
    match t {
        TermModel::List(items) => {
            lemma_apply_all_ground(f, items);
        },
        TermModel::Literal(l) => match l.structure.arguments {
            Some(a) => {
                lemma_apply_all_ground(f, a);
            },
            None => {},
        },
        _ => {},
    }
}

pub proof fn lemma_apply_all_ground(f: spec_fn(u32) -> TermModel, ts: Seq<TermModel>)
    requires
        all_ground(ts),
    ensures
        crate::unification::substitution::apply_all(f, ts) == ts,
    decreases ts,
{
    assert forall|i: int| 0 <= i < ts.len() implies crate::unification::substitution::apply_all(f, ts)[i] == ts[i] by {
        assert(ts.take(ts.len() as int) =~= ts);
        lemma_all_ground_item(ts, i);
        lemma_apply_ground(f, ts[i]);
    }
    assert(crate::unification::substitution::apply_all(f, ts) =~= ts);
}

/// Each term of a list without variables holds none.
pub proof fn lemma_all_ground_item(ts: Seq<TermModel>, i: int)
    requires
        all_ground(ts),
        0 <= i < ts.len(),
    ensures
        ground(ts[i]),
    decreases ts.len(),
{
    if i > 0 {
        assert(ts.drop_first()[i - 1] == ts[i]);
        lemma_all_ground_item(ts.drop_first(), i - 1);
    }
}

/// The leaf asks, without negation, for a literal that a fact held matches.
pub open spec fn asks_held_fact(l: LeafModel, kb: Set<KnowledgeModel>) -> bool {
    !l.negated && match l.operand {
        OperandModel::Literal(m) => held_match(m, kb),
        _ => false,
    }
}

/// The leaf asks for the negation of a literal that a fact held matches: it fails.
pub open spec fn refuted_leaf(l: LeafModel, kb: Set<KnowledgeModel>) -> bool {
    l.negated && match l.operand {
        OperandModel::Literal(m) => held_match(m, kb),
        _ => false,
    }
}

/// Every conjunction of the plan starts with a refuted leaf.
pub open spec fn all_refuted(p: PlanModel, kb: Set<KnowledgeModel>) -> bool {
    forall|j: int| 0 <= j < p.conjunctions.len() ==> p.conjunctions[j].len() >= 1 && #[trigger] refuted_leaf(p.conjunctions[j][0], kb)
}

/// No substitution that meets the constraints makes the leaf's operand, taken without its
/// negation, hold as an answer to it says.
pub open spec fn operand_unmet(cs: Seq<(u32, TermModel)>, l: LeafModel, kb: Set<KnowledgeModel>) -> bool {
    forall|f: spec_fn(u32) -> TermModel| !(#[trigger] satisfies(f, cs) && leaf_sound(f, LeafModel { negated: false, operand: l.operand }, kb))
}

/// The plan is a single negated leaf whose operand nothing that meets the constraints
/// makes hold.
pub open spec fn lone_unmet_negation(p: PlanModel, cs: Seq<(u32, TermModel)>, kb: Set<KnowledgeModel>) -> bool {
    &&& p.conjunctions.len() == 1
    &&& p.conjunctions[0].len() == 1
    &&& p.conjunctions[0][0].negated
    &&& operand_unmet(cs, p.conjunctions[0][0], kb)
}

/// Every leaf of the conjunction surely holds under the bindings.
pub open spec fn conjunction_surely_holds(b: Bindings, c: Seq<LeafModel>, kb: Set<KnowledgeModel>) -> bool {
    forall|k: int| 0 <= k < c.len() ==> surely_holds(b, #[trigger] c[k], kb)
}

proof fn lemma_number_of_alike(a: Bindings, b: Bindings, t: TermModel, fuel: nat)
    requires
        alike(a, b),
    ensures
        number_of(a, t, fuel) == number_of(b, t, fuel),
    decreases fuel,
{
    if let TermModel::Variable(v) = t {
        assert(a.bound_term(v) == b.bound_term(v));
        if fuel > 0 {
            if let Some(TermModel::Variable(w)) = a.bound_term(v) {
                lemma_number_of_alike(a, b, TermModel::Variable(w), (fuel - 1) as nat);
            }
        }
    }
}

/// Whether a leaf surely holds depends on what the bindings hold alone.
proof fn lemma_surely_alike(a: Bindings, b: Bindings, l: LeafModel, kb: Set<KnowledgeModel>)
    requires
        alike(a, b),
    ensures
        surely_holds(a, l, kb) == surely_holds(b, l, kb),
{
    if let OperandModel::Relational(RelationalOperator::Compare { operator, equal }, ExpressionModel::Term(x), ExpressionModel::Term(y)) = l.operand {
        lemma_number_of_alike(a, b, x, a.entry_count());
        lemma_number_of_alike(a, b, y, a.entry_count());
    }
}

proof fn lemma_conjunction_surely_alike(a: Bindings, b: Bindings, c: Seq<LeafModel>, kb: Set<KnowledgeModel>)
    requires
        alike(a, b),
        conjunction_surely_holds(a, c, kb),
    ensures
        conjunction_surely_holds(b, c, kb),
{
    assert forall|k: int| 0 <= k < c.len() implies surely_holds(b, #[trigger] c[k], kb) by {
        lemma_surely_alike(a, b, c[k], kb);
    }
}

/// A copy of the bindings: the same entries and aliases.
fn copy_bindings(b: &Bindings) -> (r: Bindings)
    ensures
        r.entries() == b.entries(),
        r.alias_pairs() == b.alias_pairs(),
        well_kept(*b) ==> well_kept(r),
{
    let r = b.clone();
    proof {
        if well_kept(*b) {
            crate::bindings::lemma_well_kept_alike(*b, r);
        }
    }
    r
}

/// The two literals unified under the current bindings, if they unify.
fn unify_literals(a: &Literal, b: &Literal, current: &Bindings) -> (r: Option<Bindings>)
    ensures
        r matches Some(x) ==> a.negated == b.negated
            && apply_structure(x.solution(), a.structure@) == apply_structure(x.solution(), b.structure@)
            && satisfies(x.solution(), current.constraints()),
        r is Some ==> atom_and_arity_of(a.structure@) == atom_and_arity_of(b.structure@),
        a.negated == b.negated && (structure_constraints(a.structure@, b.structure@) matches Ok(cs) && distinct_ground(cs))
            && bindings_empty(*current) ==> r is Some,
        r matches Some(x) ==> well_kept(x),
        a.negated == b.negated && ground_structure(a.structure@) && ground_entries(*current)
            && structures_unifiable(a.structure@, b.structure@, current.constraints()) ==> r is Some,
        r matches Some(x) ==> forall|f: spec_fn(u32) -> TermModel| #![trigger apply_structure(f, a.structure@)]
            apply_structure(f, a.structure@) == apply_structure(f, b.structure@) && satisfies(f, current.constraints()) ==> satisfies(f, x.constraints()),
        ground_structure(a.structure@) && ground_entries(*current) && r is Some ==> ground_entries(r->Some_0),
{
    if a.negated != b.negated {
        return None;
    }
    assert(crate::bindings::optional_constraints(Some(current)) == current.constraints());
    match a.structure.unify(&b.structure, Some(current)) {
        Ok(x) => Some(x),
        Err(_) => None,
    }
}

/// The value of a side of a comparison: a term, the number it stands for under the
/// bindings; an operation, its value as `eval` computes it.
fn side_value<E: Evaluate>(expr: &ArithmeticExpression, current: &Bindings, eval: &E) -> (r: Result<u32, EvaluationError>)
    ensures
        expr matches ArithmeticExpression::Term(t) ==> r == number_of(*current, t@, current.entry_count()),
{
    match expr {
        ArithmeticExpression::Term(t) => resolve_to_number(t, current),
        _ => eval.evaluate(expr, current),
    }
}

/// The term a side of a unification stands for: a term itself, an operation its value.
fn side_term<E: Evaluate>(expr: &ArithmeticExpression, current: &Bindings, eval: &E) -> (r: Result<Term, EvaluationError>)
    ensures
        expr matches ArithmeticExpression::Term(t) ==> r matches Ok(x) && x@ == t@,
        r matches Ok(x) ==> stands_for(*expr, x),
{
    match expr {
        ArithmeticExpression::Term(t) => Ok(t.clone()),
        _ => match eval.evaluate(expr, current) {
            Ok(bits) => Ok(Term::Number(bits)),
            Err(e) => Err(e),
        },
    }
}

/// What a term stands for as a side of a unification: a term itself, an operation a number.
pub open spec fn stands_for(expr: ArithmeticExpression, t: Term) -> bool {
    match expr {
        ArithmeticExpression::Term(a) => t@ == a@,
        _ => t is Number,
    }
}

/// The terms the two sides of a unification that a plan body runs stand for: a term
/// itself, an operation its value as `eval` computes it under the bindings.
pub fn unification_sides<E: Evaluate>(lhs: &ArithmeticExpression, rhs: &ArithmeticExpression, bindings: &Bindings, eval: &E) -> (r: Result<(Term, Term), EvaluationError>)
    ensures
        r matches Ok((a, b)) ==> stands_for(*lhs, a) && stands_for(*rhs, b),
        lhs is Term && rhs is Term ==> r is Ok,
{
    let a = match side_term(lhs, bindings, eval) {
        Ok(t) => t,
        Err(e) => {
            return Err(e);
        },
    };
    let b = match side_term(rhs, bindings, eval) {
        Ok(t) => t,
        Err(e) => {
            return Err(e);
        },
    };
    Ok((a, b))
}

/// Whether a comparison of two terms holds under the bindings: both stand for numbers,
/// and the numbers compare so.
pub open spec fn terms_compare(b: Bindings, operator: CompareOperator, equal: bool, l: TermModel, r: TermModel) -> bool {
    let x = number_of(b, l, b.entry_count());
    let y = number_of(b, r, b.entry_count());
    x is Ok && y is Ok && comparison_holds(operator, equal, x->Ok_0, y->Ok_0)
}

/// What the answers of a comparison are: the current bindings alone, if any; and for a
/// comparison of two terms, exactly when it holds.
pub open spec fn comparison_answers(formula: RelationalQueryFormula, current: Bindings, r: Seq<Bindings>) -> bool {
    &&& formula.operator is Compare ==> forall|i: int| 0 <= i < r.len() ==> alike(#[trigger] r[i], current)
    &&& match (formula.operator, formula.operands.0, formula.operands.1) {
        (RelationalOperator::Compare { operator, equal }, ArithmeticExpression::Term(a), ArithmeticExpression::Term(b)) =>
            (r.len() == 1 <==> terms_compare(current, operator, equal, a@, b@)),
        _ => true,
    }
}

/// The answers of a relation: the current bindings when a comparison holds, the bindings
/// that unify the sides of a unification.
fn answers_relational<E: Evaluate>(formula: &RelationalQueryFormula, current: &Bindings, eval: &E) -> (r: Vec<Bindings>)
    ensures
        r@.len() <= 1,
        comparison_answers(*formula, *current, r@),
        forall|i: int, f: spec_fn(u32) -> TermModel| 0 <= i < r@.len() && #[trigger] satisfies(f, r@[i].constraints()) ==> {
            &&& satisfies(f, current.constraints())
            &&& match (formula.operator, formula.operands.0, formula.operands.1) {
                (RelationalOperator::Unify, ArithmeticExpression::Term(a), ArithmeticExpression::Term(b)) => apply(f, a@) == apply(f, b@),
                _ => true,
            }
        },
        well_kept(*current) ==> forall|i: int| 0 <= i < r@.len() ==> well_kept(#[trigger] r@[i]),
{
    let mut out: Vec<Bindings> = Vec::new();
    match formula.operator {
        RelationalOperator::Compare { operator, equal } => {
            let l = side_value(&formula.operands.0, current, eval);
            let r = side_value(&formula.operands.1, current, eval);
            if let (Ok(l), Ok(r)) = (l, r) {
                if compare_numbers(operator, equal, l, r) {
                    out.push(copy_bindings(current));
                }
            }
        },
        RelationalOperator::Unify => {
            let l = side_term(&formula.operands.0, current, eval);
            let r = side_term(&formula.operands.1, current, eval);
            if let (Ok(l), Ok(r)) = (l, r) {
                if let Ok(b) = l.unify(&r, Some(current)) {
                    proof {
                        assert forall|f: spec_fn(u32) -> TermModel| #[trigger] satisfies(f, b.constraints()) implies satisfies(f, current.constraints()) by {
                            lemma_entails(b, f, current.constraints());
                        }
                        assert forall|f: spec_fn(u32) -> TermModel| #[trigger] satisfies(f, b.constraints()) implies apply(f, l@) == apply(f, r@) by {
                            lemma_entails_equal(b, f, l@, r@);
                        }
                    }
                    out.push(b);
                }
            }
        },
    }
    out
}

/// What a rule whose body has the answer `sol` gives the literal: the answer narrowed to
/// the variables of the head, unified again with the literal, and merged with the current
/// bindings; or nothing where they do not fit.
fn rule_answer(head: &Literal, literal: &Literal, current: &Bindings, sol: &Bindings, vars: &std::collections::BTreeSet<u32>) -> (r: Option<Bindings>)
    ensures
        r matches Some(m) ==> forall|f: spec_fn(u32) -> TermModel| #[trigger] satisfies(f, m.constraints()) ==> {
            &&& satisfies(f, current.constraints())
            &&& head.negated == literal.negated
            &&& apply_structure(f, head.structure@) == apply_structure(f, literal.structure@)
        },
        r is Some ==> head.negated == literal.negated && atom_and_arity_of(head.structure@) == atom_and_arity_of(literal.structure@),
        r matches Some(m) ==> well_kept(m),
{
    let mut s = sol.clone();
    s.retain_variables(vars);
    let b2 = match unify_literals(head, literal, &s) {
        Some(b) => b,
        None => {
            return None;
        },
    };
    let c = current.clone();
    let ghost (gb, gc) = (b2, c);
    let both = vec![b2, c];
    proof {
        assert(both@.drop_last() =~= seq![gb]);
        assert(seq![gb].drop_last() =~= Seq::<Bindings>::empty());
        assert(all_constraints(both@) =~= gb.constraints() + gc.constraints()) by {
            reveal_with_fuel(all_constraints, 3);
            assert(Seq::<(u32, TermModel)>::empty() + gb.constraints() =~= gb.constraints());
        }
    }
    match Bindings::merge_views(&both) {
        Ok(m) => {
            proof {
                assert forall|f: spec_fn(u32) -> TermModel| #[trigger] satisfies(f, m.constraints()) implies {
                    &&& satisfies(f, current.constraints())
                    &&& head.negated == literal.negated
                    &&& apply_structure(f, head.structure@) == apply_structure(f, literal.structure@)
                } by {
                    lemma_entails(m, f, all_constraints(both@));
                    lemma_satisfies_concat(f, gb.constraints(), gc.constraints());
                    lemma_entails_equal_structure(gb, f, head.structure@, literal.structure@);
                }
            }
            Some(m)
        },
        Err(_) => None,
    }
}

/// The answers of a literal: for each belief held that unifies with it, the unifying
/// bindings; for each rule whose head unifies with it, while `depth` is above nought, the
/// answers of the rule's body (searched one rule less deep) that fit the literal.
fn answers_literal<E: Evaluate>(operand: &LeafOperand, kb: &KnowledgeBase, current: &Bindings, depth: u64, eval: &E) -> (r: Vec<Bindings>)
    requires
        operand is Literal,
    ensures
        forall|i: int| 0 <= i < r@.len() ==> entails_leaf(#[trigger] r@[i], *current, LeafModel { negated: false, operand: operand_model(*operand) }, kb.contents()),
        operand matches LeafOperand::Literal(l) ==> (r@.len() > 0 ==> relevant(kb.contents(), l@)),
        operand matches LeafOperand::Literal(l) ==> (held_match(l@, kb.contents()) && bindings_empty(*current) ==> r@.len() >= 1),
        well_kept(*current) ==> forall|i: int| 0 <= i < r@.len() ==> well_kept(#[trigger] r@[i]),
        operand matches LeafOperand::Literal(l) ==> (bindings_empty(*current) ==> forall|g: LiteralModel|
            kb.contents().contains((g, None::<FormulaModel>)) && ground_fact_for(g, l@) ==> #[trigger] finds(r@, l@, g)),
        operand matches LeafOperand::Literal(l) ==> (ground_entries(*current) && well_kept(*current) ==> forall|f: spec_fn(u32) -> TermModel|
            satisfies(f, current.constraints()) && #[trigger] fact_meets(f, LeafModel { negated: false, operand: OperandModel::Literal(l@) }, kb.contents())
            ==> covered(r@, f)),
    decreases depth, operand, 0nat,
{
    let literal: &Literal = match operand {
        LeafOperand::Literal(l) => l,
        _ => {
            return Vec::new();
        },
    };
    let ghost leaf = LeafModel { negated: false, operand: OperandModel::Literal(literal@) };
    let items = kb.items();
    let ghost g = choose|g: LiteralModel| {
        &&& #[trigger] kb.contents().contains((g, None::<FormulaModel>))
        &&& g.negated == literal@.negated
        &&& structure_constraints(g.structure, literal@.structure) matches Ok(cs) && distinct_ground(cs)
    };
    let ghost hm = held_match(literal@, kb.contents()) && bindings_empty(*current);
    let mut out: Vec<Bindings> = Vec::new();
    let mut j: usize = 0;
    while j < items.len()
        invariant
            j <= items@.len(),
            leaf == (LeafModel { negated: false, operand: OperandModel::Literal(literal@) }),
            forall|i: int| 0 <= i < items@.len() ==> kb.contents().contains(#[trigger] items@[i]@),
            forall|i: int| 0 <= i < out@.len() ==> entails_leaf(#[trigger] out@[i], *current, leaf, kb.contents()),
            out@.len() > 0 ==> relevant(kb.contents(), literal@),
            well_kept(*current) ==> forall|k: int| 0 <= k < out@.len() ==> well_kept(#[trigger] out@[k]),
            hm == (held_match(literal@, kb.contents()) && bindings_empty(*current)),
            hm ==> kb.contents().contains((g, None::<FormulaModel>)) && g.negated == literal@.negated
                && (structure_constraints(g.structure, literal@.structure) matches Ok(cs) && distinct_ground(cs)),
            hm && (exists|i: int| 0 <= i < j && #[trigger] items@[i]@ == (g, None::<FormulaModel>)) ==> out@.len() >= 1,
            forall|i: int| 0 <= i < j && bindings_empty(*current) && (#[trigger] items@[i]@).1 is None && ground_fact_for(items@[i]@.0, literal@)
                ==> finds(out@, literal@, items@[i]@.0),
            forall|f: spec_fn(u32) -> TermModel, i: int| 0 <= i < j && #[trigger] meets_fact_item(f, *current, literal@, items@[i]@) ==> covered(out@, f),
        decreases items@.len() - j,
    {
        let k = &items[j];
        let ghost n0 = out@.len();
        let ghost out0 = out@;
        assert(kb.contents().contains(items@[j as int]@));
        match &k.rule {
            None => {
                proof {
                    if hm && k@ == (g, None::<FormulaModel>) {
                        assert(k.belief@ == g);
                    }
                }
                proof {
                    if bindings_empty(*current) && ground_fact_for(k.belief@, literal@) {
                        assert(k.belief@ == k@.0);
                    }
                }
                let u = unify_literals(&k.belief, literal, current);
                proof {
                    assert forall|f: spec_fn(u32) -> TermModel| #[trigger] meets_fact_item(f, *current, literal@, k@) implies u is Some by {
                        let gs = k.belief@.structure;
                        match gs.arguments {
                            Some(a) => {
                                lemma_apply_all_ground(f, a);
                            },
                            None => {},
                        }
                        assert(apply_structure(f, gs) == gs);
                        assert(satisfies(f, current.constraints()) && apply_structure(f, gs) == apply_structure(f, literal@.structure));
                        assert(structures_unifiable(gs, literal@.structure, current.constraints()));
                    }
                }
                if let Some(b) = u {
                    proof {
                        if ground_fact_for(k.belief@, literal@) {
                            match k.belief@.structure.arguments {
                                Some(a) => {
                                    lemma_apply_all_ground(b.solution(), a);
                                },
                                None => {},
                            }
                            assert(apply_structure(b.solution(), k.belief@.structure) == k.belief@.structure);
                        }
                        assert forall|f: spec_fn(u32) -> TermModel| #[trigger] satisfies(f, b.constraints()) implies satisfies(f, current.constraints())
                            && leaf_sound(f, leaf, kb.contents()) by {
                            lemma_entails(b, f, current.constraints());
                            lemma_entails_equal_structure(b, f, k.belief.structure@, literal.structure@);
                            assert(kb.contents().contains(k@));
                            assert(k@.0.negated == literal@.negated);
                            assert(apply_structure(f, k@.0.structure) == apply_structure(f, literal@.structure));
                        }
                        assert(kb.contents().contains(k@) && k@.0 == k.belief@);
                    }
                    out.push(b);
                    proof {
                        assert forall|f: spec_fn(u32) -> TermModel| #[trigger] meets_fact_item(f, *current, literal@, k@) implies covered(out@, f) by {
                            let gs = k.belief@.structure;
                            match gs.arguments {
                                Some(a) => {
                                    lemma_apply_all_ground(f, a);
                                },
                                None => {},
                            }
                            assert(apply_structure(f, gs) == gs);
                            assert(apply_structure(f, k.belief.structure@) == apply_structure(f, literal.structure@));
                            assert(out@[n0 as int] == b);
                            assert(satisfies(f, out@[n0 as int].constraints()));
                        }
                    }
                }
            },
            Some(body) => {
                if depth > 0 {
                    if let Some(hb) = unify_literals(&k.belief, literal, current) {
                        let vars = k.belief.variables();
                        let mut hb = hb;
                        hb.retain_variables(&vars);
                        let plan = convert(body);
                        let sols = answers_plan(&plan, kb, &hb, depth - 1, eval);
                        let mut t: usize = 0;
                        while t < sols.len()
                            invariant
                                t <= sols@.len(),
                                kb.contents().contains(k@),
                                leaf == (LeafModel { negated: false, operand: OperandModel::Literal(literal@) }),
                                forall|i: int| 0 <= i < out@.len() ==> entails_leaf(#[trigger] out@[i], *current, leaf, kb.contents()),
                                out@.len() > 0 ==> relevant(kb.contents(), literal@),
                                out@.len() >= n0,
                                out@.take(n0 as int) == out0,
                                well_kept(*current) ==> forall|k: int| 0 <= k < out@.len() ==> well_kept(#[trigger] out@[k]),
                            decreases sols@.len() - t,
                        {
                            if let Some(m) = rule_answer(&k.belief, literal, current, &sols[t], &vars) {
                                proof {
                                    assert forall|f: spec_fn(u32) -> TermModel| #[trigger] satisfies(f, m.constraints()) implies satisfies(f, current.constraints())
                                        && leaf_sound(f, leaf, kb.contents()) by {
                                        assert(kb.contents().contains(k@));
                                        assert(k@.0.negated == literal@.negated);
                                        assert(apply_structure(f, k@.0.structure) == apply_structure(f, literal@.structure));
                                    }
                                    assert(kb.contents().contains(k@) && k@.0 == k.belief@);
                                }
                                out.push(m);
                            }
                            t += 1;
                        }
                    }
                }
            },
        }
        proof {
            assert(out@.len() >= n0);
            assert(out@.take(n0 as int) =~= out0);
            assert forall|f: spec_fn(u32) -> TermModel, i: int| 0 <= i < j + 1 && #[trigger] meets_fact_item(f, *current, literal@, items@[i]@)
                implies covered(out@, f) by {
                if i < j {
                    assert forall|x: int| 0 <= x < out0.len() implies out@[x + 0] == #[trigger] out0[x] by {
                        assert(out@.take(n0 as int)[x] == out@[x]);
                    }
                    lemma_covered_grow(out0, out@, f, 0);
                } else {
                    assert(items@[i] == *k);
                }
            }
            assert forall|i: int| 0 <= i < j + 1 && bindings_empty(*current) && (#[trigger] items@[i]@).1 is None && ground_fact_for(items@[i]@.0, literal@)
                implies finds(out@, literal@, items@[i]@.0) by {
                if i < j {
                    lemma_finds_grow(out0, out@, literal@, items@[i]@.0);
                } else {
                    assert(items@[i] == *k);
                    assert(k.rule is None);
                    assert(out@.len() == n0 + 1);
                    assert(apply_structure(out@[n0 as int].solution(), literal@.structure) == k.belief@.structure);
                }
            }
            if hm && (exists|i: int| 0 <= i < j + 1 && #[trigger] items@[i]@ == (g, None::<FormulaModel>)) {
                let i = choose|i: int| 0 <= i < j + 1 && #[trigger] items@[i]@ == (g, None::<FormulaModel>);
                if i < j {
                    assert(n0 >= 1);
                }
            }
        }
        j += 1;
    }
    proof {
        if hm {
            assert(kb.contents().contains((g, None::<FormulaModel>)));
            let i = choose|i: int| 0 <= i < items@.len() && items@[i]@ == (g, None::<FormulaModel>);
            assert(items@[i]@ == (g, None::<FormulaModel>));
        }
        assert forall|f: spec_fn(u32) -> TermModel| ground_entries(*current) && well_kept(*current) && satisfies(f, current.constraints())
            && #[trigger] fact_meets(f, LeafModel { negated: false, operand: OperandModel::Literal(literal@) }, kb.contents()) implies covered(out@, f) by {
            let g2 = choose|g2: LiteralModel| {
                &&& #[trigger] kb.contents().contains((g2, None::<FormulaModel>))
                &&& ground_structure(g2.structure)
                &&& g2.negated == literal@.negated
                &&& apply_structure(f, literal@.structure) == g2.structure
            };
            let i = choose|i: int| 0 <= i < items@.len() && items@[i]@ == (g2, None::<FormulaModel>);
            assert(meets_fact_item(f, *current, literal@, items@[i]@));
        }
        assert forall|g2: LiteralModel| kb.contents().contains((g2, None::<FormulaModel>)) && ground_fact_for(g2, literal@) && bindings_empty(*current)
            implies #[trigger] finds(out@, literal@, g2) by {
            let i = choose|i: int| 0 <= i < items@.len() && items@[i]@ == (g2, None::<FormulaModel>);
            assert(items@[i]@ == (g2, None::<FormulaModel>));
        }
    }
    out
}

/// The answers of what a leaf asks.
fn answers_operand<E: Evaluate>(operand: &LeafOperand, kb: &KnowledgeBase, current: &Bindings, depth: u64, eval: &E) -> (r: Vec<Bindings>)
    ensures
        forall|i: int| 0 <= i < r@.len() ==> entails_leaf(#[trigger] r@[i], *current, LeafModel { negated: false, operand: operand_model(*operand) }, kb.contents()),
        operand matches LeafOperand::Literal(l) ==> (r@.len() > 0 ==> relevant(kb.contents(), l@)),
        operand matches LeafOperand::Relational(f) ==> r@.len() <= 1 && comparison_answers(**f, *current, r@),
        operand matches LeafOperand::Literal(l) ==> (held_match(l@, kb.contents()) && bindings_empty(*current) ==> r@.len() >= 1),
        well_kept(*current) ==> forall|i: int| 0 <= i < r@.len() ==> well_kept(#[trigger] r@[i]),
        forall|m: LiteralModel, g: LiteralModel| operand_model(*operand) == OperandModel::Literal(m) && bindings_empty(*current)
            && kb.contents().contains((g, None::<FormulaModel>)) && ground_fact_for(g, m) ==> #[trigger] finds(r@, m, g),
        ground_entries(*current) && well_kept(*current) ==> forall|f: spec_fn(u32) -> TermModel|
            satisfies(f, current.constraints()) && #[trigger] fact_meets(f, LeafModel { negated: false, operand: operand_model(*operand) }, kb.contents())
            ==> covered(r@, f),
    decreases depth, operand, 1nat,
{
    match operand {
        LeafOperand::Literal(_) => answers_literal(operand, kb, current, depth, eval),
        LeafOperand::Relational(formula) => {
            let r = answers_relational(formula, current, eval);
            proof {
                let leaf = LeafModel { negated: false, operand: operand_model(*operand) };
                assert forall|i: int| 0 <= i < r@.len() implies entails_leaf(#[trigger] r@[i], *current, leaf, kb.contents()) by {
                    assert forall|f: spec_fn(u32) -> TermModel| #[trigger] satisfies(f, r@[i].constraints()) implies satisfies(f, current.constraints())
                        && leaf_sound(f, leaf, kb.contents()) by {
                    }
                }
            }
            r
        },
        LeafOperand::Group(p) => {
            proof {
                assert(decreases_to!(*operand => **p));
            }
            answers_plan(&**p, kb, current, depth, eval)
        },
    }
}

/// The answers of a leaf: those of its operand, or, when it is negated, the current
/// bindings alone if the operand has none.
fn answers_leaf<E: Evaluate>(leaf: &Leaf, kb: &KnowledgeBase, current: &Bindings, depth: u64, eval: &E) -> (r: Vec<Bindings>)
    ensures
        forall|i: int| 0 <= i < r@.len() ==> entails_leaf(#[trigger] r@[i], *current, leaf_model(*leaf), kb.contents()),
        leaf.negated ==> r@.len() <= 1 && forall|i: int| 0 <= i < r@.len() ==> alike(#[trigger] r@[i], *current),
        surely_holds(*current, leaf_model(*leaf), kb.contents()) ==> r@.len() >= 1 && alike(r@[0], *current),
        asks_held_fact(leaf_model(*leaf), kb.contents()) && bindings_empty(*current) ==> r@.len() >= 1,
        refuted_leaf(leaf_model(*leaf), kb.contents()) && bindings_empty(*current) ==> r@.len() == 0,
        well_kept(*current) ==> forall|i: int| 0 <= i < r@.len() ==> well_kept(#[trigger] r@[i]),
        forall|m: LiteralModel, g: LiteralModel| leaf_model(*leaf) == (LeafModel { negated: false, operand: OperandModel::Literal(m) }) && bindings_empty(*current)
            && kb.contents().contains((g, None::<FormulaModel>)) && ground_fact_for(g, m) ==> #[trigger] finds(r@, m, g),
        leaf.negated && well_kept(*current) && operand_unmet(current.constraints(), leaf_model(*leaf), kb.contents()) ==> r@.len() == 1,
        ground_entries(*current) && well_kept(*current) ==> forall|f: spec_fn(u32) -> TermModel|
            satisfies(f, current.constraints()) && #[trigger] fact_meets(f, leaf_model(*leaf), kb.contents()) ==> covered(r@, f),
    decreases depth, leaf, 0nat,
{
    proof {
        assert(decreases_to!(*leaf => leaf.operand));
    }
    let inner = answers_operand(&leaf.operand, kb, current, depth, eval);
    if leaf.negated {
        proof {
            if well_kept(*current) && operand_unmet(current.constraints(), leaf_model(*leaf), kb.contents()) && inner@.len() > 0 {
                let a = inner@[0];
                crate::bindings::lemma_well_kept_satisfied(a);
                let f = a.solution();
                assert(entails_leaf(a, *current, LeafModel { negated: false, operand: operand_model(leaf.operand) }, kb.contents()));
                assert(satisfies(f, a.constraints()));
                assert(leaf_model(*leaf).operand == operand_model(leaf.operand));
                assert(!(satisfies(f, current.constraints()) && leaf_sound(f, LeafModel { negated: false, operand: leaf_model(*leaf).operand }, kb.contents())));
            }
        }
        let mut out: Vec<Bindings> = Vec::new();
        if inner.len() == 0 {
            out.push(copy_bindings(current));
        }
        out
    } else {
        inner
    }
}

/// The answers of the leaves from the `i`-th on, found one leaf after the other.
fn answers_conjunction<E: Evaluate>(leaves: &Vec<Leaf>, i: usize, kb: &KnowledgeBase, current: &Bindings, depth: u64, eval: &E) -> (r: Vec<Bindings>)
    requires
        i <= leaves@.len(),
    ensures
        forall|k: int| 0 <= k < r@.len() ==> entails_conjunction(#[trigger] r@[k], *current, leaves_model(leaves@).subrange(i as int, leaves@.len() as int), kb.contents()),
        conjunction_surely_holds(*current, leaves_model(leaves@).subrange(i as int, leaves@.len() as int), kb.contents()) ==> r@.len() >= 1 && alike(r@[0], *current),
        i == leaves@.len() ==> r@.len() == 1,
        i + 1 == leaves@.len() && asks_held_fact(leaves_model(leaves@)[i as int], kb.contents()) && bindings_empty(*current) ==> r@.len() >= 1,
        i < leaves@.len() && refuted_leaf(leaves_model(leaves@)[i as int], kb.contents()) && bindings_empty(*current) ==> r@.len() == 0,
        well_kept(*current) ==> forall|i: int| 0 <= i < r@.len() ==> well_kept(#[trigger] r@[i]),
        i == leaves@.len() ==> alike(r@[0], *current),
        forall|m: LiteralModel, g: LiteralModel| i + 1 == leaves@.len() && leaves_model(leaves@)[i as int] == (LeafModel { negated: false, operand: OperandModel::Literal(m) }) && bindings_empty(*current)
            && kb.contents().contains((g, None::<FormulaModel>)) && ground_fact_for(g, m) ==> #[trigger] finds(r@, m, g),
        i + 1 == leaves@.len() && leaves_model(leaves@)[i as int].negated && well_kept(*current)
            && operand_unmet(current.constraints(), leaves_model(leaves@)[i as int], kb.contents()) ==> r@.len() == 1,
        ground_entries(*current) && well_kept(*current) ==> forall|f: spec_fn(u32) -> TermModel| satisfies(f, current.constraints())
            && #[trigger] facts_meet(f, leaves_model(leaves@).subrange(i as int, leaves@.len() as int), kb.contents()) ==> covered(r@, f),
    decreases depth, leaves, leaves@.len() - i,
{
    let ghost rest = leaves_model(leaves@).subrange(i as int, leaves@.len() as int);
    if i == leaves.len() {
        let mut out: Vec<Bindings> = Vec::new();
        out.push(copy_bindings(current));
        assert(rest.len() == 0);
        proof {
            assert forall|f: spec_fn(u32) -> TermModel| ground_entries(*current) && well_kept(*current) && satisfies(f, current.constraints())
                && #[trigger] facts_meet(f, rest, kb.contents()) implies covered(out@, f) by {
                assert(out@[0].constraints() == current.constraints());
                assert(satisfies(f, out@[0].constraints()));
            }
        }
        return out;
    }
    proof {
        assert(decreases_to!(*leaves => leaves@));
        assert(decreases_to!(leaves@ => leaves@[i as int]));
    }
    let firsts = answers_leaf(&leaves[i], kb, current, depth, eval);
    proof {
        if conjunction_surely_holds(*current, rest, kb.contents()) {
            assert(rest[0] == leaf_model(leaves@[i as int]));
            assert(surely_holds(*current, rest[0], kb.contents()));
        }
    }
    let next = i + 1;
    let mut out: Vec<Bindings> = Vec::new();
    let mut t: usize = 0;
    while t < firsts.len()
        invariant
            i < leaves@.len(),
            next == i + 1,
            t <= firsts@.len(),
            rest == leaves_model(leaves@).subrange(i as int, leaves@.len() as int),
            forall|k: int| 0 <= k < firsts@.len() ==> entails_leaf(#[trigger] firsts@[k], *current, leaf_model(leaves@[i as int]), kb.contents()),
            forall|k: int| 0 <= k < out@.len() ==> entails_conjunction(#[trigger] out@[k], *current, rest, kb.contents()),
            conjunction_surely_holds(*current, rest, kb.contents()) ==> firsts@.len() >= 1 && alike(firsts@[0], *current),
            conjunction_surely_holds(*current, rest, kb.contents()) && t > 0 ==> out@.len() >= 1 && alike(out@[0], *current),
            t == 0 ==> out@.len() == 0,
            well_kept(*current) ==> forall|k: int| 0 <= k < out@.len() ==> well_kept(#[trigger] out@[k]),
            forall|k: int| 0 <= k < firsts@.len() ==> (well_kept(*current) ==> well_kept(#[trigger] firsts@[k])),
            i + 1 == leaves@.len() ==> out@.len() == t && forall|k: int| 0 <= k < t ==> (#[trigger] out@[k]).solution() == firsts@[k].solution(),
            i + 1 == leaves@.len() && asks_held_fact(leaves_model(leaves@)[i as int], kb.contents()) && bindings_empty(*current) ==> firsts@.len() >= 1,
            i + 1 == leaves@.len() && asks_held_fact(leaves_model(leaves@)[i as int], kb.contents()) && bindings_empty(*current) && t > 0 ==> out@.len() >= 1,
            refuted_leaf(leaves_model(leaves@)[i as int], kb.contents()) && bindings_empty(*current) ==> firsts@.len() == 0,
            forall|f: spec_fn(u32) -> TermModel, k: int| 0 <= k < t && #[trigger] satisfies(f, firsts@[k].constraints()) && ground_entries(firsts@[k])
                && well_kept(firsts@[k]) && facts_meet(f, leaves_model(leaves@).subrange(next as int, leaves@.len() as int), kb.contents()) ==> covered(out@, f),
        decreases firsts@.len() - t,
    {
        let b = &firsts[t];
        proof {
            let tail = leaves_model(leaves@).subrange(i + 1, leaves@.len() as int);
            assert(rest.subrange(1, rest.len() as int) =~= tail);
            if t == 0 && conjunction_surely_holds(*current, rest, kb.contents()) {
                assert forall|k: int| 0 <= k < tail.len() implies surely_holds(*current, #[trigger] tail[k], kb.contents()) by {
                    assert(tail[k] == rest[k + 1]);
                }
                lemma_conjunction_surely_alike(*current, *b, tail, kb.contents());
            }
        }
        let mut more = answers_conjunction(leaves, next, kb, b, depth, eval);
        proof {
            let tail = leaves_model(leaves@).subrange(i + 1, leaves@.len() as int);
            assert(rest[0] == leaf_model(leaves@[i as int]));
            assert(rest.subrange(1, rest.len() as int) =~= tail);
            assert(entails_leaf(*b, *current, leaf_model(leaves@[i as int]), kb.contents()));
            assert forall|k: int| 0 <= k < more@.len() implies entails_conjunction(#[trigger] more@[k], *current, rest, kb.contents()) by {
                assert forall|f: spec_fn(u32) -> TermModel| #[trigger] satisfies(f, more@[k].constraints()) implies satisfies(f, current.constraints())
                    && conjunction_sound(f, rest, kb.contents()) by {
                    assert(entails_conjunction(more@[k], *b, tail, kb.contents()));
                    assert(satisfies(f, b.constraints()));
                }
            }
        }
        let ghost (before, added) = (out@, more@);
        proof {
            if i + 1 == leaves@.len() {
                assert(added.len() == 1);
                lemma_alike_solution(added[0], *b);
            }
        }
        out.append(&mut more);
        proof {
            let tail = leaves_model(leaves@).subrange(next as int, leaves@.len() as int);
            assert(out@ =~= before + added);
            assert forall|f: spec_fn(u32) -> TermModel, k: int| 0 <= k < t + 1 && #[trigger] satisfies(f, firsts@[k].constraints()) && ground_entries(firsts@[k])
                && well_kept(firsts@[k]) && facts_meet(f, tail, kb.contents()) implies covered(out@, f) by {
                if k < t {
                    assert forall|x: int| 0 <= x < before.len() implies out@[x + 0] == #[trigger] before[x] by {}
                    lemma_covered_grow(before, out@, f, 0);
                } else {
                    assert(firsts@[k] == *b);
                    assert(covered(added, f));
                    assert forall|x: int| 0 <= x < added.len() implies out@[x + before.len()] == #[trigger] added[x] by {}
                    lemma_covered_grow(added, out@, f, before.len() as int);
                }
            }
        }
        proof {
            if i + 1 == leaves@.len() {
                assert forall|k: int| 0 <= k < t + 1 implies (#[trigger] out@[k]).solution() == firsts@[k].solution() by {
                    if k < t {
                        assert(out@[k] == before[k]);
                    } else {
                        assert(out@[k] == added[0]);
                    }
                }
            }
        }
        assert forall|k: int| 0 <= k < out@.len() implies entails_conjunction(#[trigger] out@[k], *current, rest, kb.contents()) by {
            if k < before.len() {
                assert(out@[k] == before[k]);
            } else {
                assert(out@[k] == added[k - before.len()]);
            }
        }
        proof {
            if conjunction_surely_holds(*current, rest, kb.contents()) {
                if t == 0 {
                    assert(out@[0] == added[0]);
                } else {
                    assert(out@[0] == before[0]);
                }
            }
        }
        t += 1;
    }
    proof {
        assert(leaf_model(leaves@[i as int]) == leaves_model(leaves@)[i as int]);
        if i + 1 == leaves@.len() {
            assert forall|m: LiteralModel, g: LiteralModel| leaves_model(leaves@)[i as int] == (LeafModel { negated: false, operand: OperandModel::Literal(m) })
                && bindings_empty(*current) && kb.contents().contains((g, None::<FormulaModel>)) && ground_fact_for(g, m) implies #[trigger] finds(out@, m, g) by {
                assert(leaf_model(leaves@[i as int]) == leaves_model(leaves@)[i as int]);
                assert(finds(firsts@, m, g));
                let k = choose|k: int| 0 <= k < firsts@.len() && apply_structure(#[trigger] firsts@[k].solution(), m.structure) == g.structure;
                assert(out@[k].solution() == firsts@[k].solution());
            }
        }
        assert forall|f: spec_fn(u32) -> TermModel| ground_entries(*current) && well_kept(*current) && satisfies(f, current.constraints())
            && #[trigger] facts_meet(f, rest, kb.contents()) implies covered(out@, f) by {
            let tail = leaves_model(leaves@).subrange(next as int, leaves@.len() as int);
            assert(rest[0] == leaf_model(leaves@[i as int]));
            assert(fact_meets(f, rest[0], kb.contents()));
            assert(covered(firsts@, f));
            let k0 = choose|k: int| 0 <= k < firsts@.len() && #[trigger] satisfies(f, firsts@[k].constraints()) && ground_entries(firsts@[k]) && well_kept(firsts@[k]);
            assert forall|x: int| 0 <= x < tail.len() implies fact_meets(f, #[trigger] tail[x], kb.contents()) by {
                assert(tail[x] == rest[x + 1]);
            }
            assert(satisfies(f, firsts@[k0].constraints()));
        }
    }
    out
}

/// The answers of a plan: those of each conjunction in turn.
fn answers_plan<E: Evaluate>(plan: &QueryPlan, kb: &KnowledgeBase, current: &Bindings, depth: u64, eval: &E) -> (r: Vec<Bindings>)
    ensures
        forall|k: int| 0 <= k < r@.len() ==> entails_plan(#[trigger] r@[k], *current, plan_model(*plan), kb.contents()),
        (exists|j: int| 0 <= j < plan_model(*plan).conjunctions.len()
            && #[trigger] conjunction_surely_holds(*current, plan_model(*plan).conjunctions[j], kb.contents())) ==> r@.len() >= 1,
        (exists|j: int| 0 <= j < plan_model(*plan).conjunctions.len() && plan_model(*plan).conjunctions[j].len() == 1
            && #[trigger] asks_held_fact(plan_model(*plan).conjunctions[j][0], kb.contents())) && bindings_empty(*current) ==> r@.len() >= 1,
        all_refuted(plan_model(*plan), kb.contents()) && bindings_empty(*current) ==> r@.len() == 0,
        well_kept(*current) ==> forall|i: int| 0 <= i < r@.len() ==> well_kept(#[trigger] r@[i]),
        forall|m: LiteralModel, g: LiteralModel| (exists|j: int| 0 <= j < plan_model(*plan).conjunctions.len() && plan_model(*plan).conjunctions[j] == seq![LeafModel { negated: false, operand: OperandModel::Literal(m) }]) && bindings_empty(*current)
            && kb.contents().contains((g, None::<FormulaModel>)) && ground_fact_for(g, m) ==> #[trigger] finds(r@, m, g),
        well_kept(*current) && lone_unmet_negation(plan_model(*plan), current.constraints(), kb.contents()) ==> r@.len() == 1,
        ground_entries(*current) && well_kept(*current) ==> forall|f: spec_fn(u32) -> TermModel, j: int| 0 <= j < plan_model(*plan).conjunctions.len()
            && satisfies(f, current.constraints()) && #[trigger] facts_meet(f, plan_model(*plan).conjunctions[j], kb.contents()) ==> covered(r@, f),
    decreases depth, plan, 0nat,
{
    let ghost pm = plan_model(*plan);
    let mut out: Vec<Bindings> = Vec::new();
    let mut j: usize = 0;
    while j < plan.conjunctions.len()
        invariant
            j <= plan.conjunctions@.len(),
            pm == plan_model(*plan),
            forall|k: int| 0 <= k < out@.len() ==> entails_plan(#[trigger] out@[k], *current, pm, kb.contents()),
            forall|j2: int| 0 <= j2 < j && #[trigger] conjunction_surely_holds(*current, pm.conjunctions[j2], kb.contents()) ==> out@.len() >= 1,
            forall|j2: int| 0 <= j2 < j && pm.conjunctions[j2].len() == 1 && #[trigger] asks_held_fact(pm.conjunctions[j2][0], kb.contents())
                && bindings_empty(*current) ==> out@.len() >= 1,
            forall|m: LiteralModel, g: LiteralModel| (exists|j2: int| 0 <= j2 < j && pm.conjunctions[j2] == seq![LeafModel { negated: false, operand: OperandModel::Literal(m) }])
                && bindings_empty(*current) && kb.contents().contains((g, None::<FormulaModel>)) && ground_fact_for(g, m) ==> #[trigger] finds(out@, m, g),
            all_refuted(pm, kb.contents()) && bindings_empty(*current) ==> out@.len() == 0,
            well_kept(*current) ==> forall|k: int| 0 <= k < out@.len() ==> well_kept(#[trigger] out@[k]),
            j == 0 ==> out@.len() == 0,
            j > 0 && well_kept(*current) && lone_unmet_negation(pm, current.constraints(), kb.contents()) ==> out@.len() == 1,
            ground_entries(*current) && well_kept(*current) ==> forall|f: spec_fn(u32) -> TermModel, j2: int| 0 <= j2 < j
                && satisfies(f, current.constraints()) && #[trigger] facts_meet(f, pm.conjunctions[j2], kb.contents()) ==> covered(out@, f),
        decreases plan.conjunctions@.len() - j,
    {
        proof {
            assert(decreases_to!(*plan => plan.conjunctions));
            assert(decreases_to!(plan.conjunctions => plan.conjunctions@));
            assert(decreases_to!(plan.conjunctions@ => plan.conjunctions@[j as int]));
        }
        let mut more = answers_conjunction(&plan.conjunctions[j], 0, kb, current, depth, eval);
        proof {
            if all_refuted(pm, kb.contents()) && bindings_empty(*current) {
                let c = leaves_model(plan.conjunctions@[j as int]@);
                assert(pm.conjunctions[j as int] == c);
                assert(refuted_leaf(pm.conjunctions[j as int][0], kb.contents()));
                assert(more@.len() == 0);
            }
        }
        proof {
            let c = leaves_model(plan.conjunctions@[j as int]@);
            assert(pm.conjunctions[j as int] == c);
            assert(c.subrange(0, c.len() as int) =~= c);
            assert forall|k: int| 0 <= k < more@.len() implies entails_plan(#[trigger] more@[k], *current, pm, kb.contents()) by {
                assert forall|f: spec_fn(u32) -> TermModel| #[trigger] satisfies(f, more@[k].constraints()) implies satisfies(f, current.constraints())
                    && plan_sound(f, pm, kb.contents()) by {
                    assert(entails_conjunction(more@[k], *current, c, kb.contents()));
                    lemma_some_conjunction(f, pm.conjunctions, j as int, kb.contents());
                }
            }
        }
        let ghost (before, added) = (out@, more@);
        out.append(&mut more);
        proof {
            assert(out@ =~= before + added);
            assert((before + added).take(before.len() as int) =~= before);
            if ground_entries(*current) && well_kept(*current) {
                assert forall|f: spec_fn(u32) -> TermModel, j2: int| 0 <= j2 < j + 1 && satisfies(f, current.constraints())
                    && #[trigger] facts_meet(f, pm.conjunctions[j2], kb.contents()) implies covered(out@, f) by {
                    if j2 < j {
                        assert forall|x: int| 0 <= x < before.len() implies out@[x + 0] == #[trigger] before[x] by {}
                        lemma_covered_grow(before, out@, f, 0);
                    } else {
                        let c = leaves_model(plan.conjunctions@[j as int]@);
                        assert(pm.conjunctions[j as int] == c);
                        assert(c.subrange(0, c.len() as int) =~= c);
                        assert(covered(added, f));
                        assert forall|x: int| 0 <= x < added.len() implies out@[x + before.len()] == #[trigger] added[x] by {}
                        lemma_covered_grow(added, out@, f, before.len() as int);
                    }
                }
            }
            assert forall|m: LiteralModel, g: LiteralModel| (exists|j2: int| 0 <= j2 < j + 1 && pm.conjunctions[j2] == seq![LeafModel { negated: false, operand: OperandModel::Literal(m) }])
                && bindings_empty(*current) && kb.contents().contains((g, None::<FormulaModel>)) && ground_fact_for(g, m) implies #[trigger] finds(out@, m, g) by {
                let j2 = choose|j2: int| 0 <= j2 < j + 1 && pm.conjunctions[j2] == seq![LeafModel { negated: false, operand: OperandModel::Literal(m) }];
                if j2 < j {
                    lemma_finds_grow(before, out@, m, g);
                } else {
                    let c = leaves_model(plan.conjunctions@[j as int]@);
                    assert(pm.conjunctions[j as int] == c);
                    assert(c.len() == 1);
                    assert(c[0] == (LeafModel { negated: false, operand: OperandModel::Literal(m) }));
                    assert(finds(added, m, g));
                    lemma_finds_suffix(before, added, m, g);
                }
            }
        }
        proof {
            if well_kept(*current) && lone_unmet_negation(pm, current.constraints(), kb.contents()) {
                let c = leaves_model(plan.conjunctions@[j as int]@);
                assert(j == 0);
                assert(pm.conjunctions[j as int] == c);
                assert(added.len() == 1);
            }
            if all_refuted(pm, kb.contents()) && bindings_empty(*current) {
                assert(before.len() == 0);
                assert(added.len() == 0);
                assert(out@.len() == before.len() + added.len());
            }
        }
        assert forall|k: int| 0 <= k < out@.len() implies entails_plan(#[trigger] out@[k], *current, pm, kb.contents()) by {
            if k < before.len() {
                assert(out@[k] == before[k]);
            } else {
                assert(out@[k] == added[k - before.len()]);
            }
        }
        proof {
            let c = leaves_model(plan.conjunctions@[j as int]@);
            assert(c.subrange(0, c.len() as int) =~= c);
            assert(pm.conjunctions[j as int] == c);
        }
        j += 1;
    }
    out
}

/// Asking for the negation of an asserted fact finds nothing: once the belief `l`, whose
/// arguments hold no variable, is added to the knowledge `c`, the query for its negation
/// is a single leaf that is refuted, which [`KnowledgeBase::answers`], asked without
/// bindings, answers with nothing.
pub proof fn lemma_asserted_fact_refutes_its_negation(c: Set<KnowledgeModel>, l: LiteralModel)
    requires
        match l.structure.arguments {
            Some(a) => all_ground(a),
            None => true,
        },
    ensures
        super::lowering::lowered(FormulaModel::Not(Box::new(FormulaModel::Literal(l)))).conjunctions.len() == 1,
        super::lowering::lowered(FormulaModel::Not(Box::new(FormulaModel::Literal(l)))).conjunctions[0].len() == 1,
        refuted_leaf(super::lowering::lowered(FormulaModel::Not(Box::new(FormulaModel::Literal(l)))).conjunctions[0][0], c.insert((l, None::<FormulaModel>))),
{
    crate::unification::traits::lemma_ground_self_structure(l.structure);
    assert(distinct_ground(Seq::<(u32, TermModel)>::empty()));
    assert(c.insert((l, None::<FormulaModel>)).contains((l, None::<FormulaModel>)));
}

impl KnowledgeBase {
    /// Every set of bindings found, extending the existing ones, under which the formula
    /// holds, in the order the search finds them; rules are answered at most `depth` deep,
    /// and `eval` computes the value of arithmetic operations. Each answer entails the
    /// existing bindings and, of some conjunction of the formula's plan, that its literals
    /// are held and its unifications of terms hold. The search misses no answer that facts
    /// give: every substitution that meets the existing bindings and makes each literal of
    /// a conjunction a held fact without variables meets one of the answers.
    pub fn answers<E: Evaluate>(&self, formula: &QueryFormula, existing: Option<&Bindings>, depth: u64, eval: &E) -> (r: Vec<Bindings>)
        ensures
            forall|k: int, f: spec_fn(u32) -> TermModel| 0 <= k < r@.len() && #[trigger] satisfies(f, r@[k].constraints()) ==> {
                &&& satisfies(f, crate::bindings::optional_constraints(existing))
                &&& plan_sound(f, super::lowering::lowered(formula@), self.contents())
            },
            (exists|b: Bindings, j: int| {
                &&& starts_alike(b, existing)
                &&& 0 <= j < super::lowering::lowered(formula@).conjunctions.len()
                &&& #[trigger] conjunction_surely_holds(b, super::lowering::lowered(formula@).conjunctions[j], self.contents())
            }) ==> r@.len() >= 1,
            (exists|j: int| {
                &&& 0 <= j < super::lowering::lowered(formula@).conjunctions.len()
                &&& super::lowering::lowered(formula@).conjunctions[j].len() == 1
                &&& #[trigger] asks_held_fact(super::lowering::lowered(formula@).conjunctions[j][0], self.contents())
            }) && crate::bindings::starts_empty(existing) ==> r@.len() >= 1,
            all_refuted(super::lowering::lowered(formula@), self.contents()) && crate::bindings::starts_empty(existing) ==> r@.len() == 0,
            (existing matches Some(e) ==> well_kept(*e)) ==> forall|k: int| 0 <= k < r@.len() ==> well_kept(#[trigger] r@[k]),
            (existing matches Some(e) ==> well_kept(*e)) && (forall|f: spec_fn(u32) -> TermModel| !(#[trigger] satisfies(f, crate::bindings::optional_constraints(existing))
                && plan_sound(f, super::lowering::lowered(formula@), self.contents()))) ==> r@.len() == 0,
            forall|m: LiteralModel, g: LiteralModel| (exists|j: int| 0 <= j < super::lowering::lowered(formula@).conjunctions.len()
                && super::lowering::lowered(formula@).conjunctions[j] == seq![LeafModel { negated: false, operand: OperandModel::Literal(m) }])
                && crate::bindings::starts_empty(existing) && self.contents().contains((g, None::<FormulaModel>)) && ground_fact_for(g, m)
                ==> #[trigger] finds(r@, m, g),
            (existing matches Some(e) ==> well_kept(*e))
                && lone_unmet_negation(super::lowering::lowered(formula@), crate::bindings::optional_constraints(existing), self.contents()) ==> r@.len() == 1,
            (existing matches Some(e) ==> well_kept(*e) && ground_entries(*e)) ==> forall|f: spec_fn(u32) -> TermModel, j: int|
                0 <= j < super::lowering::lowered(formula@).conjunctions.len() && satisfies(f, crate::bindings::optional_constraints(existing))
                && #[trigger] facts_meet(f, super::lowering::lowered(formula@).conjunctions[j], self.contents()) ==> covered(r@, f),
    {
        let current = match existing {
            Some(b) => copy_bindings(b),
            None => Bindings::empty(),
        };
        assert(current.constraints() == crate::bindings::optional_constraints(existing)) by {
            if existing is None {
                assert(current.constraints() =~= Seq::<(u32, TermModel)>::empty());
            }
        }
        let plan = convert(formula);
        let r = answers_plan(&plan, self, &current, depth, eval);
        assert forall|k: int, f: spec_fn(u32) -> TermModel| 0 <= k < r@.len() && #[trigger] satisfies(f, r@[k].constraints()) implies {
            &&& satisfies(f, crate::bindings::optional_constraints(existing))
            &&& plan_sound(f, super::lowering::lowered(formula@), self.contents())
        } by {
            assert(entails_plan(r@[k], current, plan_model(plan), self.contents()));
        }
        proof {
            let low = super::lowering::lowered(formula@);
            if exists|b: Bindings, j: int| {
                &&& starts_alike(b, existing)
                &&& 0 <= j < low.conjunctions.len()
                &&& #[trigger] conjunction_surely_holds(b, low.conjunctions[j], self.contents())
            } {
                let (b, j) = choose|b: Bindings, j: int| {
                    &&& starts_alike(b, existing)
                    &&& 0 <= j < low.conjunctions.len()
                    &&& #[trigger] conjunction_surely_holds(b, low.conjunctions[j], self.contents())
                };
                if existing is None {
                    assert(b.entries() =~= current.entries());
                    assert(b.alias_pairs() =~= current.alias_pairs());
                }
                lemma_conjunction_surely_alike(b, current, low.conjunctions[j], self.contents());
            }
            if crate::bindings::starts_empty(existing) && exists|j: int| {
                &&& 0 <= j < low.conjunctions.len()
                &&& low.conjunctions[j].len() == 1
                &&& #[trigger] asks_held_fact(low.conjunctions[j][0], self.contents())
            } {
                let j = choose|j: int| {
                    &&& 0 <= j < low.conjunctions.len()
                    &&& low.conjunctions[j].len() == 1
                    &&& #[trigger] asks_held_fact(low.conjunctions[j][0], self.contents())
                };
                assert(bindings_empty(current));
                assert(asks_held_fact(plan_model(plan).conjunctions[j][0], self.contents()));
            }
            if crate::bindings::starts_empty(existing) {
                assert(bindings_empty(current));
            }
            assert(plan_model(plan) == low);
            if existing matches Some(e) ==> well_kept(*e) {
                assert(well_kept(current));
            }
            if existing matches Some(e) ==> well_kept(*e) && ground_entries(*e) {
                assert(ground_entries(current));
            }
            if (existing matches Some(e) ==> well_kept(*e)) && r@.len() > 0 {
                assert(well_kept(current));
                let a = r@[0];
                assert(well_kept(a));
                crate::bindings::lemma_well_kept_satisfied(a);
                assert(satisfies(a.solution(), r@[0].constraints()));
            }
        }
        r
    }
}

/// A query for an asserted fact finds it: once the belief `l`, whose arguments hold no
/// variable, is added to the knowledge `c`, the query for `l` is a single leaf that asks
/// for a literal a held fact matches, which [`KnowledgeBase::answers`], asked without
/// bindings, answers.
pub proof fn lemma_asserted_fact_is_found(c: Set<KnowledgeModel>, l: LiteralModel)
    requires
        match l.structure.arguments {
            Some(a) => all_ground(a),
            None => true,
        },
    ensures
        super::lowering::lowered(FormulaModel::Literal(l)).conjunctions.len() == 1,
        super::lowering::lowered(FormulaModel::Literal(l)).conjunctions[0].len() == 1,
        asks_held_fact(super::lowering::lowered(FormulaModel::Literal(l)).conjunctions[0][0], c.insert((l, None::<FormulaModel>))),
{
    crate::unification::traits::lemma_ground_self_structure(l.structure);
    let cs = Seq::<(u32, TermModel)>::empty();
    assert(distinct_ground(cs));
    assert(c.insert((l, None::<FormulaModel>)).contains((l, None::<FormulaModel>)));
}

/// The bindings hold what the search starts from: the existing bindings, or nothing.
pub open spec fn starts_alike(b: Bindings, existing: Option<&Bindings>) -> bool {
    match existing {
        Some(e) => alike(b, *e),
        None => b.entries().len() == 0 && b.alias_pairs().len() == 0,
    }
}

} // verus!
