//! Unification of terms: the constraints two terms put on their variables.

pub mod constraint;
pub mod error;
pub mod substitution;
pub mod traits;
