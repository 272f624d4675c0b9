use vstd::prelude::*;

verus! {

/// Why a literal cannot be written as a frame.
#[derive(Debug, Clone, Copy, PartialEq, Eq)]
pub enum EncodeError {
    EmptyFunctor,
    FunctorContainsNull,
    VariableNameEmpty,
    VariableNameContainsNull,
}

/// Why a frame cannot be read back as a literal.
#[derive(Debug, Clone, Copy, PartialEq, Eq)]
pub enum DecodeError {
    ParseFailed,
}

impl EncodeError {
    /// The message the error displays.
    pub fn message(&self) -> (s: &'static str)
        ensures
            s@ == match self {
                EncodeError::EmptyFunctor => "encode error: empty functor"@,
                EncodeError::FunctorContainsNull => "encode error: functor contains null"@,
                EncodeError::VariableNameEmpty => "encode error: variable name empty"@,
                EncodeError::VariableNameContainsNull => "encode error: variable name contains null"@,
            },
    {
        match self {
            EncodeError::EmptyFunctor => "encode error: empty functor",
            EncodeError::FunctorContainsNull => "encode error: functor contains null",
            EncodeError::VariableNameEmpty => "encode error: variable name empty",
            EncodeError::VariableNameContainsNull => "encode error: variable name contains null",
        }
    }
}

impl DecodeError {
    /// The message the error displays.
    pub fn message(&self) -> (s: &'static str)
        ensures
            s@ == match self {
                DecodeError::ParseFailed => "decode error: parse failed"@,
            },
    {
        match self {
            DecodeError::ParseFailed => "decode error: parse failed",
        }
    }
}

} // verus!
