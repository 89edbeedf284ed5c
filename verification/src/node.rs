use vstd::prelude::*;
use crate::status::Status;

verus! {

/// One transversal crossing of the two curves, as reported by the external
/// intersection solver: the crossing parameter on each curve.
///
/// Parameters are carried as order keys (`u64` values whose `<=` order is the
/// parameter order on the owning curve); the solver's caller converts the
/// curve's native parameter values into keys order-preservingly. Crossings are
/// already deduplicated and tangential contacts are excluded by the solver's
/// contract.
#[derive(Clone, Copy, Debug, PartialEq, Eq, Structural)]
pub struct IntersectionRecord {
    /// The crossing parameter on the subject (first) curve.
    pub param_a: u64,
    /// The crossing parameter on the clip (second) curve.
    pub param_b: u64,
}

/// One crossing on one curve's circular node list.
///
/// `next`/`prev` index the owning list in ascending-then-wrapping parameter
/// order; `cross` indexes the counterpart node on the other list built from
/// the same `IntersectionRecord`.
#[derive(Clone, Copy, Debug, PartialEq, Eq, Structural)]
pub struct Node {
    /// `true` when the node lies on the subject (first) curve.
    pub subject: bool,
    /// The crossing parameter on the owning curve, as an order key.
    pub parameter: u64,
    /// Enter/Exit classification of the crossing.
    pub status: Status,
    /// Whether the traversal engine has consumed this node.
    pub visited: bool,
    /// Index of the parameter-order successor in the owning list.
    pub next: usize,
    /// Index of the parameter-order predecessor in the owning list.
    pub prev: usize,
    /// Index of the counterpart node in the other curve's list.
    pub cross: usize,
}

/// Names one node of the graph: which list it lives on, and its index there.
#[derive(Clone, Copy, Debug, PartialEq, Eq, Structural)]
pub struct NodeId {
    /// `true` for the subject curve's list, `false` for the clip curve's.
    pub subject: bool,
    /// Index into the owning list.
    pub index: usize,
}

} // verus!
