use vstd::prelude::*;

verus! {

/// Why two terms do not unify.
#[derive(Debug, Clone, Copy, PartialEq, Eq)]
pub enum UnificationError {
    NumberMismatch,
    StringMismatch,
    FunctorMismatch,
    ArityMismatch,
    TypeMismatch,
    NegationMismatch,
    CyclicReference,
    /// The solver gave up after taking in `u64::MAX` constraints.
    StepLimitReached,
}

impl UnificationError {
    /// The message the error displays.
    pub fn message(&self) -> (s: &'static str)
        ensures
            s@ == match self {
                UnificationError::NumberMismatch => "unification failed: number mismatch"@,
                UnificationError::StringMismatch => "unification failed: string mismatch"@,
                UnificationError::FunctorMismatch => "unification failed: functor mismatch"@,
                UnificationError::ArityMismatch => "unification failed: arity mismatch"@,
                UnificationError::TypeMismatch => "unification failed: type mismatch"@,
                UnificationError::NegationMismatch => "unification failed: negation mismatch"@,
                UnificationError::CyclicReference => "unification failed: cyclic reference detected"@,
                UnificationError::StepLimitReached => "unification failed: step limit reached"@,
            },
    {
        match self {
            UnificationError::NumberMismatch => "unification failed: number mismatch",
            UnificationError::StringMismatch => "unification failed: string mismatch",
            UnificationError::FunctorMismatch => "unification failed: functor mismatch",
            UnificationError::ArityMismatch => "unification failed: arity mismatch",
            UnificationError::TypeMismatch => "unification failed: type mismatch",
            UnificationError::NegationMismatch => "unification failed: negation mismatch",
            UnificationError::CyclicReference => "unification failed: cyclic reference detected",
            UnificationError::StepLimitReached => "unification failed: step limit reached",
        }
    }
}

} // verus!
