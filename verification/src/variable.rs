//! Logic variables.

use vstd::prelude::*;

verus! {

/// The identity of a variable.
#[derive(Debug, Clone, Copy, PartialEq, Eq, PartialOrd, Ord, Hash)]
pub struct VariableId(pub u32);

/// A logic variable: two variables are the same exactly when their ids are.
#[derive(Debug, Clone, Copy, PartialEq, Eq, PartialOrd, Ord, Hash)]
pub struct Variable {
    pub id: VariableId,
}

impl VariableId {
    /// The number behind the id.
    pub fn value(&self) -> (r: u32)
        ensures
            r == self.0,
    {
        self.0
    }
}

/// Hands out variable ids: each variable it makes takes the next id.
#[derive(Debug)]
pub struct VariableSupply {
    next: u32,
}

impl VariableSupply {
    /// The id the next variable will get.
    pub closed spec fn next_id(&self) -> u32 {
        self.next
    }

    /// A supply whose first variable gets id 0.
    pub fn new() -> (s: Self)
        ensures
            s.next_id() == 0,
    {
        VariableSupply { next: 0 }
    }
}

impl Variable {
    /// A fresh variable: it takes the supply's next id, and the supply moves on by one
    /// (wrapping around after `u32::MAX`).
    pub fn new(supply: &mut VariableSupply) -> (v: Variable)
        ensures
            v.id.0 == old(supply).next_id(),
            final(supply).next_id() == old(supply).next_id().wrapping_add(1),
    {
        let id = supply.next;
        supply.next = supply.next.wrapping_add(1);
        Variable { id: VariableId(id) }
    }

    /// The id of the variable.
    pub fn id(&self) -> (r: VariableId)
        ensures
            r == self.id,
    {
        self.id
    }
}

} // verus!
