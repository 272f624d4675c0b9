//! Literals: possibly negated structures.

use vstd::prelude::*;

use crate::term::Structure;

verus! {

/// A possibly negated structure.
#[derive(Debug, PartialEq, Eq)]
pub struct Literal {
    pub negated: bool,
    pub structure: Structure,
}

} // verus!
