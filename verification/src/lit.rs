//! Literals: a boolean variable together with a polarity.

use vstd::prelude::*;

verus! {

/// The number of variables a formula can hold: the largest count that
/// `varisat` supports.  Variable indices run from zero up to, but not
/// including, this bound.
pub const MAX_VAR_COUNT: usize = 0x1000_0000;

/// A boolean variable, given by its zero-based index, or its negation.
#[derive(Clone, Copy, PartialEq, Eq, Structural, Debug, Hash)]
pub struct Lit {
    /// Zero-based index of the variable.
    pub var: usize,
    /// `true` for the variable itself, `false` for its negation.
    pub positive: bool,
}

impl Lit {
    /// The literal of the same variable with the opposite polarity.
    pub open spec fn negated(self) -> Lit {
        Lit { var: self.var, positive: !self.positive }
    }

    /// The positive literal of the variable with index `var`.
    pub open spec fn of_var(var: nat) -> Lit {
        Lit { var: var as usize, positive: true }
    }

    /// Negates the literal.  Negating twice gives the literal back.
    pub fn negate(self) -> (r: Lit)
        ensures
            r == self.negated(),
            r.negated() == self,
    {
        Lit { var: self.var, positive: !self.positive }
    }
}

/// Every literal of `lits` names a variable below `bound`.
pub open spec fn in_range(lits: Seq<Lit>, bound: nat) -> bool {
    forall|i: int| 0 <= i < lits.len() ==> (#[trigger] lits[i]).var < bound
}

} // verus!
