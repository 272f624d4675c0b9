use vstd::prelude::*;

use crate::term::{Term, TermModel};
use crate::variable::VariableId;

verus! {

/// The constraint that a variable stands for a term.
#[derive(Debug)]
pub struct BindingConstraint {
    pub variable: VariableId,
    pub value: Term,
}

impl View for BindingConstraint {
    type V = (u32, TermModel);

    open spec fn view(&self) -> (u32, TermModel) {
        (self.variable.0, self.value@)
    }
}

pub open spec fn constraints_model(cs: Seq<BindingConstraint>) -> Seq<(u32, TermModel)> {
    cs.map_values(|c: BindingConstraint| c@)
}

impl BindingConstraint {
    /// The constraint that `variable` stands for `value`.
    pub fn new(variable: VariableId, value: Term) -> (c: Self)
        ensures
            c@ == (variable.0, value@),
    {
        BindingConstraint { variable, value }
    }
}

} // verus!
