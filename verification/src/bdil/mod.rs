//! The `bdil` content language: literals exchanged between agents, and their binary
//! frame format.

use bstr::BString;
use vstd::prelude::*;

use crate::bytestring::bstring_bytes;

pub mod codec;
pub mod decode;
pub mod encode;
pub mod error;
pub mod roundtrip;


pub use self::decode::decode;
pub use self::encode::{encode, encode_content};
pub use self::error::{DecodeError, EncodeError};

verus! {

broadcast use vstd::std_specs::vec::group_vec_axioms;

/// Content of a message in the `bdil` language.
#[derive(Debug, PartialEq, Eq)]
pub enum BdilContent {
    Literal(Literal),
}

/// A possibly negated literal `functor(arguments...)`.
#[derive(Debug, PartialEq, Eq)]
pub struct Literal {
    pub negated: bool,
    pub functor: Functor,
    pub arguments: Option<Vec<Term>>,
}

/// The name of a literal.
#[derive(Debug, PartialEq, Eq)]
pub struct Functor(pub String);

/// An argument of a literal.
#[derive(Debug, PartialEq, Eq)]
pub enum Term {
    Int(i32),
    /// A 32-bit float, held as its IEEE-754 bit pattern, so that two floats are equal
    /// exactly when their bits are.
    Float(u32),
    Str(BString),
    Literal(Literal),
    Variable(Variable),
}

/// A named variable.
#[derive(Debug, PartialEq, Eq)]
pub struct Variable {
    pub name: String,
}

/// The mathematical value of a [`Term`].
pub enum TermModel {
    Int(i32),
    Float(u32),
    Str(Seq<u8>),
    Literal(LiteralModel),
    Variable(Seq<char>),
}

/// The mathematical value of a [`Literal`]: `arguments` is `None` for an atom written
/// without argument list.
pub struct LiteralModel {
    pub negated: bool,
    pub functor: Seq<char>,
    pub arguments: Option<Seq<TermModel>>,
}

pub open spec fn terms_model(ts: Seq<Term>) -> Seq<TermModel>
    decreases ts,
{
    Seq::new(ts.len(), |i: int| if 0 <= i < ts.len() { term_model(ts[i]) } else { TermModel::Int(0) })
}

pub open spec fn literal_model(l: Literal) -> LiteralModel
    decreases l,
{
    LiteralModel {
        negated: l.negated,
        functor: l.functor.0@,
        arguments: match l.arguments {
            Some(args) => Some(terms_model(args@)),
            None => None,
        },
    }
}

pub open spec fn term_model(t: Term) -> TermModel
    decreases t,
{
    match t {
        Term::Int(i) => TermModel::Int(i),
        Term::Float(f) => TermModel::Float(f),
        Term::Str(s) => TermModel::Str(bstring_bytes(s)),
        Term::Literal(l) => TermModel::Literal(literal_model(l)),
        Term::Variable(v) => TermModel::Variable(v.name@),
    }
}

impl View for Literal {
    type V = LiteralModel;

    open spec fn view(&self) -> LiteralModel {
        literal_model(*self)
    }
}

impl View for Term {
    type V = TermModel;

    open spec fn view(&self) -> TermModel {
        term_model(*self)
    }
}

} // verus!
