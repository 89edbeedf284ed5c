use vstd::prelude::*;

verus! {

/// The failures a boolean call can report.
///
/// Fewer than two transversal crossings (the fully-disjoint and fully-nested
/// configurations) are a defined failure, not a special case; an odd crossing
/// count violates the closed-curve topology assumption and is fatal.
#[derive(Clone, Copy, Debug, PartialEq, Eq, Structural)]
pub enum BooleanError {
    /// Fewer than two crossings were reported for the curve pair.
    NoIntersection,
    /// The crossing count is odd, which two closed curves cannot produce.
    OddIntersectionCount,
}

} // verus!
