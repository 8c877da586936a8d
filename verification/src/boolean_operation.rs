//! How the results of a pass over the regions are folded into one.

use vstd::prelude::*;

verus! {

/// How the per-region results of a board-wide pass are folded together.
///
/// The lazy variants stop the pass at the first region whose result already
/// decides the fold; the eager ones visit every region.
#[derive(Clone, Copy, PartialEq, Eq, Structural, Debug)]
pub enum BooleanOperation {
    Or,
    OrLazy,
    And,
    AndLazy,
}

impl BooleanOperation {
    /// The neutral element of the fold: `false` for a disjunction, `true`
    /// for a conjunction.
    pub open spec fn spec_initial(self) -> bool {
        match self {
            BooleanOperation::Or | BooleanOperation::OrLazy => false,
            BooleanOperation::And | BooleanOperation::AndLazy => true,
        }
    }

    /// One step of the fold.
    pub open spec fn spec_combine(self, current: bool, next: bool) -> bool {
        match self {
            BooleanOperation::Or | BooleanOperation::OrLazy => current || next,
            BooleanOperation::And | BooleanOperation::AndLazy => current && next,
        }
    }

    /// Whether a pass may stop as soon as the fold has left its neutral
    /// element.
    pub open spec fn spec_is_lazy(self) -> bool {
        self == BooleanOperation::OrLazy || self == BooleanOperation::AndLazy
    }

    /// Initial value for the operation type.
    pub fn initial(self) -> (r: bool)
        ensures
            r == self.spec_initial(),
    {
        match self {
            BooleanOperation::Or | BooleanOperation::OrLazy => false,
            BooleanOperation::And | BooleanOperation::AndLazy => true,
        }
    }

    /// Combines the current result with the new value based on the operation type.
    pub fn combine(self, current: bool, next: bool) -> (r: bool)
        ensures
            r == self.spec_combine(current, next),
    {
        match self {
            BooleanOperation::Or | BooleanOperation::OrLazy => current || next,
            BooleanOperation::And | BooleanOperation::AndLazy => current && next,
        }
    }

    /// Whether this operation short-circuits.
    pub fn is_lazy(self) -> (r: bool)
        ensures
            r == self.spec_is_lazy(),
    {
        match self {
            BooleanOperation::OrLazy | BooleanOperation::AndLazy => true,
            BooleanOperation::Or | BooleanOperation::And => false,
        }
    }
}

} // verus!
