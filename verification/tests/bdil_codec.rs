use bstr::BString;
use ember_bdi::bdil::decode::decode;
use ember_bdi::bdil::encode::encode;
use ember_bdi::bdil::{Functor, Literal, Term, Variable};

fn round_trip(lit: Literal) {
    let bytes = encode(&lit).expect("encode failed");
    let decoded = decode(&bytes).expect("decode failed");
    assert_eq!(lit, decoded);
}

#[test]
fn atom() {
    round_trip(Literal { negated: false, functor: Functor("raining".into()), arguments: None });
}

#[test]
fn negated_atom() {
    round_trip(Literal { negated: true, functor: Functor("sunny".into()), arguments: None });
}

#[test]
fn literal_with_literal_args() {
    round_trip(Literal {
        negated: false,
        functor: Functor("location".into()),
        arguments: Some(vec![
            Term::Literal(Literal { negated: false, functor: Functor("agent1".into()), arguments: None }),
            Term::Literal(Literal { negated: false, functor: Functor("room3".into()), arguments: None }),
        ]),
    });
}

#[test]
fn literal_with_int_and_float() {
    round_trip(Literal {
        negated: false,
        functor: Functor("reading".into()),
        arguments: Some(vec![Term::Int(42), Term::Float(3.14f32.to_bits())]),
    });
}

#[test]
fn literal_with_string() {
    round_trip(Literal {
        negated: false,
        functor: Functor("label".into()),
        arguments: Some(vec![Term::Str(BString::from("hello world"))]),
    });
}

#[test]
fn literal_with_variable() {
    round_trip(Literal {
        negated: false,
        functor: Functor("at".into()),
        arguments: Some(vec![
            Term::Literal(Literal { negated: false, functor: Functor("robot".into()), arguments: None }),
            Term::Variable(Variable { name: "X".into() }),
        ]),
    });
}

#[test]
fn negated_nested_literal() {
    round_trip(Literal {
        negated: false,
        functor: Functor("state".into()),
        arguments: Some(vec![Term::Literal(Literal { negated: true, functor: Functor("broken".into()), arguments: None })]),
    });
}

#[test]
fn invalid_magic() {
    assert!(decode(&[0xFF, 0xFF, 0x40, 0x10, 0x30, b'a', 0x00, 0x00, 0x00]).is_err());
}

#[test]
fn empty_frame_is_missing_expression() {
    assert!(decode(&[0xCA, 0xED, 0x40, 0x00]).is_err());
}

#[test]
fn atom_frame_bytes() {
    let lit = Literal { negated: false, functor: Functor("a".into()), arguments: None };
    assert_eq!(encode(&lit).unwrap(), vec![0xCA, 0xED, 0x40, 0x10, 0x30, b'a', 0x00, 0x00, 0x00]);
}

#[test]
fn negated_literal_frame_bytes_with_int() {
    let lit = Literal { negated: true, functor: Functor("n".into()), arguments: Some(vec![Term::Int(-2)]) };
    assert_eq!(
        encode(&lit).unwrap(),
        vec![0xCA, 0xED, 0x40, 0x11, 0x30, b'n', 0x00, 0x20, 0xFE, 0xFF, 0xFF, 0xFF, 0x00, 0x00]
    );
}

#[test]
fn string_argument_bytes_are_copied() {
    let lit = Literal { negated: false, functor: Functor("s".into()), arguments: Some(vec![Term::Str(BString::from("hi"))]) };
    let bytes = encode(&lit).unwrap();
    assert!(bytes.windows(2).any(|w| w == b"hi"));
    assert_eq!(decode(&bytes).unwrap(), lit);
}

#[test]
fn encode_rejects_empty_functor() {
    let lit = Literal { negated: false, functor: Functor("".into()), arguments: None };
    assert_eq!(encode(&lit), Err(ember_bdi::bdil::error::EncodeError::EmptyFunctor));
}

#[test]
fn encode_rejects_functor_with_null() {
    let lit = Literal { negated: false, functor: Functor("a\0b".into()), arguments: None };
    assert_eq!(encode(&lit), Err(ember_bdi::bdil::error::EncodeError::FunctorContainsNull));
}

#[test]
fn encode_rejects_empty_variable_name() {
    let lit = Literal { negated: false, functor: Functor("p".into()), arguments: Some(vec![Term::Variable(Variable { name: "".into() })]) };
    assert_eq!(encode(&lit), Err(ember_bdi::bdil::error::EncodeError::VariableNameEmpty));
}

#[test]
fn encode_rejects_variable_name_with_null() {
    let lit = Literal { negated: false, functor: Functor("p".into()), arguments: Some(vec![Term::Variable(Variable { name: "X\0".into() })]) };
    assert_eq!(encode(&lit), Err(ember_bdi::bdil::error::EncodeError::VariableNameContainsNull));
}

#[test]
fn decode_reports_parse_failure() {
    assert_eq!(decode(&[0xCA, 0xED]), Err(ember_bdi::bdil::error::DecodeError::ParseFailed));
}

#[test]
fn decode_rejects_variable_name_that_is_not_utf8() {
    let frame = [0xCA, 0xED, 0x40, 0x10, 0x30, b'p', 0x00, 0x25, 0xFF, 0x00, 0x00, 0x00];
    assert!(decode(&frame).is_err());
    let ok = [0xCA, 0xED, 0x40, 0x10, 0x30, b'p', 0x00, 0x25, b'X', 0x00, 0x00, 0x00];
    let lit = decode(&ok).unwrap();
    assert_eq!(lit.arguments, Some(vec![Term::Variable(Variable { name: "X".into() })]));
}

#[test]
fn error_messages() {
    assert_eq!(ember_bdi::bdil::error::EncodeError::EmptyFunctor.message(), "encode error: empty functor");
    assert_eq!(ember_bdi::bdil::error::DecodeError::ParseFailed.message(), "decode error: parse failed");
}
