use vstd::prelude::*;

verus! {

/// The set operation a boolean call computes.
#[derive(Clone, Copy, Debug, PartialEq, Eq, Structural)]
pub enum BooleanOperation {
    Union,
    Intersection,
    Difference,
}

impl BooleanOperation {
    /// Whether the operation flips every seeded status on the subject curve's
    /// list. Together with `inverts_clip` this is the inversion table that
    /// selects which side of each curve is kept: `Union` flips both lists,
    /// `Intersection` flips neither, `Difference` flips the subject list only.
    pub open spec fn inverts_subject(self) -> bool {
        match self {
            BooleanOperation::Union => true,
            BooleanOperation::Intersection => false,
            BooleanOperation::Difference => true,
        }
    }

    /// Whether the operation flips every seeded status on the clip curve's
    /// list (see `inverts_subject`).
    pub open spec fn inverts_clip(self) -> bool {
        match self {
            BooleanOperation::Union => true,
            BooleanOperation::Intersection => false,
            BooleanOperation::Difference => false,
        }
    }
}

} // verus!
