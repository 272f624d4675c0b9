use bstr::BString;
use ember_bdi::bindings::{AliasMap, Bindings};
use ember_bdi::literal::Literal;
use ember_bdi::resolve::{Resolve, ResolveFailure};
use ember_bdi::term::{Atom, Structure, Term};
use ember_bdi::variable::{Variable, VariableSupply};

fn string(x: &str) -> Term {
    Term::String(BString::from(x))
}

fn number(x: f32) -> Term {
    Term::Number(x.to_bits())
}

fn variable_term(v: &Variable) -> Term {
    Term::Variable(*v)
}

fn literal(functor: &str, args: Vec<Term>) -> Literal {
    Literal {
        negated: false,
        structure: Structure { functor: Atom(functor.into()), arguments: if args.is_empty() { None } else { Some(args) } },
    }
}

fn bindings(list: Vec<(Variable, Term)>) -> Bindings {
    Bindings::new(list.into_iter().map(|(v, t)| (v.id, Some(t))).collect(), AliasMap::empty())
}

fn ground_atom_unchanged() {
    let bindings = Bindings::empty();
    let literal = literal("parent", vec![string("alice"), string("bob")]);
    let resolved = literal.clone().resolve(&bindings).expect("Should resolve successfully");
    assert_eq!(resolved, literal);
}

fn variable_to_atom_literal() {
    let mut supply = VariableSupply::new();
    let target_atom = literal("sunny", vec![]);
    let var = Variable::new(&mut supply);
    let bindings = bindings(vec![(var, Term::Literal(target_atom.clone()))]);
    let term = variable_term(&var);
    let resolved = term.resolve(&bindings).expect("Should resolve successfully");
    assert_eq!(resolved, Term::Literal(target_atom));
}

fn nested_variables_inside_atom() {
    let mut supply = VariableSupply::new();
    let (x, y) = (Variable::new(&mut supply), Variable::new(&mut supply));
    let bindings = bindings(vec![(x, number(10.0)), (y, Term::Variable(x))]);
    let literal = literal("p", vec![variable_term(&x), variable_term(&y)]);
    let resolved = literal.resolve(&bindings).expect("literal should resolve");
    let args = resolved.structure.arguments.expect("Should contain arguments");
    assert_eq!(args.len(), 2);
    assert_eq!(args[0], number(10.0));
    assert_eq!(args[1], Term::Variable(x));
}

fn preserves_negation_states() {
    let mut supply = VariableSupply::new();
    let target_atom = literal("raining", vec![]);
    let var = Variable::new(&mut supply);
    let bindings = bindings(vec![(var, Term::Literal(target_atom))]);
    let term = Term::Variable(var);
    let resolved = term.resolve(&bindings).expect("Should resolve successfully");
    if let Term::Literal(Literal { negated, .. }) = resolved {
        assert!(!negated, "Inner ground atom definition was not negated");
    } else {
        panic!("Variable resolved to incorrect term.");
    }
}

fn deeply_nested_literal_term_resolution() {
    let mut supply = VariableSupply::new();
    let x = Variable::new(&mut supply);
    let bindings = bindings(vec![(x, number(31.5))]);
    let inner_structure = Structure { functor: Atom("inner_lit".into()), arguments: Some(vec![variable_term(&x)]) };
    let embedded_term = Term::Literal(Literal { negated: false, structure: inner_structure });
    let outer_literal = literal("outer_lit", vec![embedded_term]);
    let resolved = outer_literal.resolve(&bindings).expect("Should recursively map out inner structure terms");
    let outer_args = resolved.structure.arguments.expect("Should have outer args");
    let Term::Literal(Literal { structure: inner_struct, .. }) = &outer_args[0] else {
        panic!("Expected a nested Term::Literal wrapper");
    };
    let inner_args = inner_struct.arguments.as_ref().expect("Should have inner args");
    assert_eq!(inner_args[0], number(31.5), "Nested variable X should be resolved to 31.5");
}

#[test]
fn resolve_test_resolve_ground_atom_unchanged() {
    ground_atom_unchanged();
}

#[test]
fn resolver_test_resolve_ground_atom_unchanged() {
    ground_atom_unchanged();
}

#[test]
fn resolve_test_resolve_variable_to_atom_literal() {
    variable_to_atom_literal();
}

#[test]
fn resolver_test_resolve_variable_to_atom_literal() {
    variable_to_atom_literal();
}

#[test]
fn resolve_test_resolve_nested_variables_inside_atom() {
    nested_variables_inside_atom();
}

#[test]
fn resolver_test_resolve_nested_variables_inside_atom() {
    nested_variables_inside_atom();
}

#[test]
fn resolve_test_resolve_preserves_negation_states() {
    preserves_negation_states();
}

#[test]
fn resolver_test_resolve_preserves_negation_states() {
    preserves_negation_states();
}

#[test]
fn resolve_test_deeply_nested_literal_term_resolution() {
    deeply_nested_literal_term_resolution();
}

#[test]
fn resolver_test_deeply_nested_literal_term_resolution() {
    deeply_nested_literal_term_resolution();
}

#[test]
fn test_resolve_unbound_variable_literal_remains_variable() {
    let mut supply = VariableSupply::new();
    let var = Variable::new(&mut supply);
    let term = Term::Variable(var);
    let resolved = term.clone().resolve(&Bindings::empty()).unwrap();
    assert_eq!(resolved, term);
}

#[test]
fn unified_terms_resolve_alike() {
    let mut supply = VariableSupply::new();
    let (x, y) = (Variable::new(&mut supply), Variable::new(&mut supply));
    let a = Term::Literal(literal("p", vec![variable_term(&x), number(2.0)]));
    let b = Term::Literal(literal("p", vec![number(1.0), variable_term(&y)]));
    let result = a.unify(&b, None).unwrap();
    let ra = a.clone().resolve(&result).unwrap();
    let rb = b.clone().resolve(&result).unwrap();
    assert_eq!(ra, rb);
    assert_eq!(ra, Term::Literal(literal("p", vec![number(1.0), number(2.0)])));
}

#[test]
fn structures_and_lists_resolve() {
    let mut supply = VariableSupply::new();
    let x = Variable::new(&mut supply);
    let bindings = bindings(vec![(x, string("v"))]);
    let s = Structure { functor: Atom("q".into()), arguments: Some(vec![Term::List(vec![variable_term(&x)])]) };
    let r = s.resolve(&bindings).unwrap();
    assert_eq!(r.arguments, Some(vec![Term::List(vec![string("v")])]));
}

#[test]
fn resolve_failure_message() {
    assert_eq!(ResolveFailure::IncorrectKind.message(), "resolve failure: incorrect kind");
}
