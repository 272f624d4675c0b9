use bstr::BString;
use ember_bdi::bindings::{AliasMap, Bindings};
use ember_bdi::literal::Literal;
use ember_bdi::term::{Atom, Structure, Term};
use ember_bdi::unification::error::UnificationError;
use ember_bdi::variable::{Variable, VariableId, VariableSupply};

fn n(x: f32) -> Term {
    Term::Number(x.to_bits())
}

fn s(x: &str) -> Term {
    Term::String(BString::from(x))
}

fn vt(v: &Variable) -> Term {
    Term::Variable(*v)
}

fn structure(functor: &str, args: Vec<Term>) -> Structure {
    Structure { functor: Atom(functor.into()), arguments: Some(args) }
}

fn literal(negated: bool, functor: &str, args: Vec<Term>) -> Term {
    Term::Literal(Literal { negated, structure: structure(functor, args) })
}

#[test]
fn unification_unify_identical_constants() {
    let (t1, t2) = (n(42.0), n(42.0));
    assert!(t1.unify(&t2, None).is_ok());

    let (s1, s2) = (s("hello"), s("hello"));
    assert!(s1.unify(&s2, None).is_ok());
}

#[test]
fn unification_simple_variable_binding() {
    let mut supply = VariableSupply::new();
    let (x, val) = (Variable::new(&mut supply), n(100.0));

    let result = x.unify(&val, None).expect("Unification failed");
    let binding = result.get(&x).expect("Variable 1 should be bound");
    assert_eq!(binding, &n(100.0));
}

#[test]
fn unification_structural_unification() {
    let mut supply = VariableSupply::new();
    let x = Variable::new(&mut supply);

    let t1 = literal(false, "f", vec![vt(&x), n(2.0)]);
    let t2 = literal(false, "f", vec![n(1.0), n(2.0)]);

    let result = t1.unify(&t2, None).expect("Unification failed");
    assert_eq!(result.get(&x), Some(&n(1.0)));
}

#[test]
fn unification_variable_aliasing() {
    let mut supply = VariableSupply::new();
    let (x, y) = (Variable::new(&mut supply), Variable::new(&mut supply));

    let t1 = literal(false, "pair", vec![vt(&x), vt(&y)]);
    let t2 = literal(false, "pair", vec![vt(&y), n(42.0)]);

    let result = t1.unify(&t2, None).expect("Unification failed");
    assert_eq!(result.get(&x), Some(&n(42.0)));
    assert_eq!(result.get(&y), Some(&n(42.0)));
}

#[test]
fn unification_mismatch_constants() {
    let (t1, t2) = (n(1.0), n(2.0));
    assert_eq!(t1.unify(&t2, None).unwrap_err(), UnificationError::NumberMismatch);

    let (s1, s2) = (s("a"), s("b"));
    assert_eq!(s1.unify(&s2, None).unwrap_err(), UnificationError::StringMismatch);
}

#[test]
fn unification_type_mismatch() {
    let (t1, t2) = (n(1.0), s("1"));
    assert_eq!(t1.unify(&t2, None).unwrap_err(), UnificationError::TypeMismatch);
}

#[test]
fn unification_arity_mismatch() {
    let (t1, t2) = (literal(false, "f", vec![n(1.0)]), literal(false, "f", vec![n(1.0), n(2.0)]));
    assert_eq!(t1.unify(&t2, None).unwrap_err(), UnificationError::ArityMismatch);
}

#[test]
fn unification_functor_mismatch() {
    let (t1, t2) = (literal(false, "f", vec![n(1.0)]), literal(false, "g", vec![n(1.0)]));
    assert_eq!(t1.unify(&t2, None).unwrap_err(), UnificationError::FunctorMismatch);
}

#[test]
fn unification_negation_mismatch() {
    let (t1, t2) = (literal(true, "f", vec![n(1.0)]), literal(false, "f", vec![n(1.0)]));
    assert_eq!(t1.unify(&t2, None).unwrap_err(), UnificationError::NegationMismatch);
}

#[test]
fn unification_inconsistent_variable_binding() {
    let mut supply = VariableSupply::new();
    let x = Variable::new(&mut supply);

    let (t1, t2) = (literal(false, "pair", vec![vt(&x), vt(&x)]), literal(false, "pair", vec![n(1.0), n(2.0)]));

    assert_eq!(t1.unify(&t2, None).unwrap_err(), UnificationError::NumberMismatch);
}

#[test]
fn unification_recursive_resolution() {
    let mut supply = VariableSupply::new();
    let (x, y) = (Variable::new(&mut supply), Variable::new(&mut supply));

    let (t1, t2) = (literal(false, "f", vec![vt(&x)]), literal(false, "f", vec![literal(false, "g", vec![vt(&y)])]));

    let query = literal(false, "triple", vec![t1, vt(&y)]);
    let belief = literal(false, "triple", vec![t2, n(1.0)]);

    let result = query.unify(&belief, None).expect("Complex resolution failed");

    let x_binding = result.get(&x).expect("X should be bound");
    let expected_x = literal(false, "g", vec![n(1.0)]);
    assert_eq!(x_binding, &expected_x);
}

#[test]
fn unification_direct_cycle_detection() {
    let mut supply = VariableSupply::new();
    let x = Variable::new(&mut supply);

    let fx = literal(false, "f", vec![vt(&x)]);

    assert_eq!(x.unify(&fx, None).unwrap_err(), UnificationError::CyclicReference);
}

#[test]
fn unification_indirect_cycle_detection() {
    let mut supply = VariableSupply::new();
    let (x, y) = (Variable::new(&mut supply), Variable::new(&mut supply));

    let t1 = literal(false, "pair", vec![vt(&x), vt(&y)]);
    let t2 = literal(false, "pair", vec![literal(false, "f", vec![vt(&y)]), literal(false, "f", vec![vt(&x)])]);

    assert_eq!(t1.unify(&t2, None).unwrap_err(), UnificationError::CyclicReference);
}

#[test]
fn unification_deep_alias_chain_resolution() {
    let mut supply = VariableSupply::new();
    let (a, b, c, d) = (
        Variable::new(&mut supply),
        Variable::new(&mut supply),
        Variable::new(&mut supply),
        Variable::new(&mut supply),
    );

    let t1 = literal(false, "chain", vec![vt(&a), vt(&b), vt(&c), vt(&d)]);
    let t2 = literal(false, "chain", vec![vt(&b), vt(&c), vt(&d), n(100.0)]);

    let result = t1.unify(&t2, None).expect("Deep chain failed");
    for v in [a, b, c, d] {
        assert_eq!(result.get(&v), Some(&n(100.0)));
    }
}

#[test]
fn unification_unbound_variables_in_result() {
    let mut supply = VariableSupply::new();
    let (x, y, z) = (Variable::new(&mut supply), Variable::new(&mut supply), Variable::new(&mut supply));

    let t1 = literal(false, "f", vec![vt(&x), vt(&y)]);
    let t2 = literal(false, "f", vec![n(1.0), vt(&z)]);

    let result = t1.unify(&t2, None).expect("Unification with free vars failed");

    assert_eq!(result.get(&x), Some(&n(1.0)));

    assert_eq!(result.get(&y), None);
    assert_eq!(result.get(&z), None);
}

#[test]
fn unification_unify_with_existing_compatible_binding() {
    let mut supply = VariableSupply::new();
    let x = Variable::new(&mut supply);
    let n1 = n(1.0);
    let existing = x.unify(&n1, None).unwrap();

    let t1 = literal(false, "f", vec![vt(&x)]);
    let t2 = literal(false, "f", vec![n(1.0)]);

    let result = t1.unify(&t2, Some(&existing)).expect("Should succeed");
    assert_eq!(result.get(&x), Some(&n(1.0)));
}

#[test]
fn unification_unify_with_existing_incompatible_binding() {
    let mut supply = VariableSupply::new();
    let x = Variable::new(&mut supply);
    let n1 = n(1.0);
    let existing = x.unify(&n1, None).unwrap();

    let t1 = literal(false, "f", vec![vt(&x)]);
    let t2 = literal(false, "f", vec![n(2.0)]);

    let err = t1.unify(&t2, Some(&existing)).unwrap_err();
    assert_eq!(err, UnificationError::NumberMismatch);
}

#[test]
fn unification_existing_alias_propagation() {
    let mut supply = VariableSupply::new();
    let (x, y) = (Variable::new(&mut supply), Variable::new(&mut supply));
    let t_init1 = literal(false, "pair", vec![vt(&x), vt(&y)]);
    let t_init2 = literal(false, "pair", vec![vt(&y), vt(&x)]);
    let existing = t_init1.unify(&t_init2, None).unwrap();

    let t1 = vt(&x);
    let t2 = n(10.0);

    let result = t1.unify(&t2, Some(&existing)).expect("Aliasing failed");
    assert_eq!(result.get(&x), Some(&n(10.0)));
    assert_eq!(result.get(&y), Some(&n(10.0)));
}

#[test]
fn unification_existing_binding_deep_resolution() {
    let mut supply = VariableSupply::new();
    let (x, y) = (Variable::new(&mut supply), Variable::new(&mut supply));

    let term_g_y = literal(false, "g", vec![vt(&y)]);
    let existing = x.unify(&term_g_y, None).expect("Initial binding failed");

    assert_eq!(existing.get(&x), Some(&term_g_y));

    let t1 = literal(false, "f", vec![vt(&y)]);
    let t2 = literal(false, "f", vec![n(10.0)]);

    let final_bindings = t1.unify(&t2, Some(&existing)).expect("Deep resolution unification failed");

    let expected_x = literal(false, "g", vec![n(10.0)]);

    let x_res = final_bindings.get(&x).expect("X should still be bound");
    assert_eq!(x_res, &expected_x);

    assert_eq!(final_bindings.get(&y), Some(&n(10.0)));
}

// Further cases.

#[test]
fn aliases_name_the_first_member_of_each_class() {
    let mut supply = VariableSupply::new();
    let (x, y, z) = (Variable::new(&mut supply), Variable::new(&mut supply), Variable::new(&mut supply));
    let t1 = literal(false, "f", vec![vt(&z), vt(&y)]);
    let t2 = literal(false, "f", vec![vt(&x), vt(&z)]);
    let result = t1.unify(&t2, None).unwrap();
    let pairs: Vec<(u32, u32)> = result.aliases().iter().iter().map(|(a, b)| (a.0, b.0)).collect();
    assert_eq!(pairs, vec![(x.id.0, y.id.0), (x.id.0, z.id.0)]);
    assert_eq!(result.get(&x), None);
}

#[test]
fn bindings_list_every_known_variable_in_increasing_order() {
    let mut supply = VariableSupply::new();
    let (x, y) = (Variable::new(&mut supply), Variable::new(&mut supply));
    let t1 = literal(false, "f", vec![vt(&y), n(3.0)]);
    let t2 = literal(false, "f", vec![vt(&x), vt(&y)]);
    let result = t1.unify(&t2, None).unwrap();
    assert_eq!(result.get(&x), Some(&n(3.0)));
    assert_eq!(result.get(&y), Some(&n(3.0)));
    assert_eq!(result.entry_count_exec(), 2);
}

#[test]
fn list_terms_unify_element_wise() {
    let mut supply = VariableSupply::new();
    let x = Variable::new(&mut supply);
    let a = Term::List(vec![vt(&x), n(2.0)]);
    let b = Term::List(vec![s("one"), n(2.0)]);
    let result = a.unify(&b, None).unwrap();
    assert_eq!(result.get(&x), Some(&s("one")));
    let c = Term::List(vec![n(2.0)]);
    assert_eq!(a.unify(&c, None).unwrap_err(), UnificationError::ArityMismatch);
}

#[test]
fn structures_unify() {
    let mut supply = VariableSupply::new();
    let x = Variable::new(&mut supply);
    let s1 = structure("p", vec![vt(&x)]);
    let s2 = structure("p", vec![n(5.0)]);
    let result = s1.unify(&s2, None).unwrap();
    assert_eq!(result.get(&x), Some(&n(5.0)));
    let s3 = structure("q", vec![n(5.0)]);
    assert_eq!(s1.unify(&s3, None).unwrap_err(), UnificationError::FunctorMismatch);
}

#[test]
fn build_from_constraints_with_existing_bindings() {
    let mut supply = VariableSupply::new();
    let (x, y) = (Variable::new(&mut supply), Variable::new(&mut supply));
    let existing = Bindings::new(vec![(y.id, Some(n(7.0)))], AliasMap::new(vec![(x.id, y.id)]));
    let result = Bindings::build_from_constraints(Vec::new(), Some(&existing)).unwrap();
    assert_eq!(result.get(&x), Some(&n(7.0)));
    assert_eq!(result.get(&y), Some(&n(7.0)));
}

#[test]
fn merge_views_joins_bindings() {
    let mut supply = VariableSupply::new();
    let (x, y) = (Variable::new(&mut supply), Variable::new(&mut supply));
    let a = Bindings::new(vec![(x.id, Some(literal(false, "g", vec![vt(&y)])))], AliasMap::empty());
    let b = Bindings::new(vec![(y.id, Some(n(1.0)))], AliasMap::empty());
    let merged = Bindings::merge_views(&vec![a, b]).unwrap();
    assert_eq!(merged.get(&x), Some(&literal(false, "g", vec![n(1.0)])));
    let c = Bindings::new(vec![(y.id, Some(n(2.0)))], AliasMap::empty());
    let d = Bindings::new(vec![(y.id, Some(n(3.0)))], AliasMap::empty());
    assert_eq!(Bindings::merge_views(&vec![c, d]).unwrap_err(), UnificationError::NumberMismatch);
}

#[test]
fn retain_variables_keeps_only_the_given_ones() {
    let mut supply = VariableSupply::new();
    let (x, y, z) = (Variable::new(&mut supply), Variable::new(&mut supply), Variable::new(&mut supply));
    let mut b = Bindings::new(
        vec![(x.id, Some(n(1.0))), (y.id, Some(n(2.0))), (z.id, None)],
        AliasMap::new(vec![(x.id, z.id), (y.id, z.id)]),
    );
    let mut keep = std::collections::BTreeSet::new();
    keep.insert(y.id.0);
    keep.insert(z.id.0);
    b.retain_variables(&keep);
    assert_eq!(b.get(&x), None);
    assert_eq!(b.get(&y), Some(&n(2.0)));
    let pairs: Vec<(u32, u32)> = b.aliases().iter().iter().map(|(a, c)| (a.0, c.0)).collect();
    assert_eq!(pairs, vec![(y.id.0, z.id.0)]);
}

#[test]
fn later_entries_override_earlier_ones() {
    let x = Variable { id: VariableId(4) };
    let b = Bindings::new(vec![(x.id, Some(n(1.0))), (x.id, Some(n(2.0)))], AliasMap::empty());
    assert_eq!(b.get(&x), Some(&n(2.0)));
}

#[test]
fn unification_error_messages() {
    assert_eq!(UnificationError::CyclicReference.message(), "unification failed: cyclic reference detected");
    assert_eq!(UnificationError::TypeMismatch.message(), "unification failed: type mismatch");
}

#[test]
fn the_step_limit_has_its_own_message() {
    assert_eq!(UnificationError::StepLimitReached.message(), "unification failed: step limit reached");
}

#[test]
fn a_variable_unifies_with_a_term_without_variables() {
    let mut supply = VariableSupply::new();
    let x = Variable::new(&mut supply);
    let t = Term::List(vec![Term::Number(1.0f32.to_bits()), Term::Number(2.0f32.to_bits())]);
    let b = x.unify(&t, None).expect("a term without variables can always be bound");
    assert_eq!(b.get(&x), Some(&t));
}

#[test]
fn the_order_of_the_two_terms_does_not_decide_success() {
    let mut supply = VariableSupply::new();
    let (x, y) = (Variable::new(&mut supply), Variable::new(&mut supply));
    let pairs = vec![
        (literal(false, "pair", vec![vt(&x), vt(&x)]), literal(false, "pair", vec![n(1.0), n(2.0)])),
        (literal(false, "pair", vec![vt(&x), vt(&y)]), literal(false, "pair", vec![n(1.0), n(2.0)])),
        (literal(false, "f", vec![vt(&x)]), literal(false, "g", vec![n(1.0)])),
        (literal(false, "f", vec![vt(&x), s("a")]), literal(false, "f", vec![s("b"), vt(&y)])),
    ];
    for (a, b) in pairs {
        assert_eq!(a.unify(&b, None).is_ok(), b.unify(&a, None).is_ok());
    }
}

#[test]
fn existing_bindings_that_agree_let_a_ground_term_unify() {
    let mut supply = VariableSupply::new();
    let (x, y) = (Variable::new(&mut supply), Variable::new(&mut supply));
    let existing = x.unify(&n(1.0), None).unwrap();
    let t = literal(false, "pair", vec![vt(&x), vt(&y)]);
    let found = t.unify(&literal(false, "pair", vec![n(1.0), s("b")]), Some(&existing)).expect("a unifier exists");
    assert_eq!(found.get(&x), Some(&n(1.0)));
    assert_eq!(found.get(&y), Some(&s("b")));
    assert!(t.unify(&literal(false, "pair", vec![n(3.0), s("b")]), Some(&existing)).is_err());
}
