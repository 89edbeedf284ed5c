use vstd::prelude::*;

verus! {

/// A directive for the external trim primitive: which material of the owning
/// curve one trimmed segment keeps.
///
/// `trim(curve, t)` splits a closed curve at parameter `t` into a head (from
/// the domain start to `t`) and a tail (from `t` to the domain end); these
/// variants name the results of the one or two trims a span requires.
#[derive(Clone, Copy, Debug, PartialEq, Eq, Structural)]
pub enum CurvePiece {
    /// The interior material between two parameters (`start < end`): trim at
    /// `start` keeping the tail, trim that tail at `end` keeping its head.
    Interior { start: u64, end: u64 },
    /// The tail from `start` to the domain end: the first piece of a span
    /// that wraps the circular domain seam.
    TailToEnd { start: u64 },
    /// The head from the domain start to `end`: the second piece of a span
    /// that wraps the circular domain seam.
    HeadFromStart { end: u64 },
}

/// One trimmed segment of a region boundary: a piece of one of the two input
/// curves.
#[derive(Clone, Copy, Debug, PartialEq, Eq, Structural)]
pub struct TrimmedSegment {
    /// `true` when the piece is cut from the subject (first) curve.
    pub subject: bool,
    /// Which material of that curve the segment keeps.
    pub piece: CurvePiece,
}

/// A closed boundary: trimmed segments in concatenation order.
#[derive(Clone, Debug, PartialEq, Eq)]
pub struct CompoundCurve {
    pub segments: Vec<TrimmedSegment>,
}

/// A closed planar region: an exterior boundary, optionally with interior
/// hole boundaries. Holes are a collaborator-level concept; every region this
/// crate produces has an empty `interiors` list.
#[derive(Clone, Debug, PartialEq, Eq)]
pub struct Region {
    pub exterior: CompoundCurve,
    pub interiors: Vec<CompoundCurve>,
}

impl CompoundCurve {
    pub fn new(segments: Vec<TrimmedSegment>) -> (c: CompoundCurve)
        ensures
            c.segments == segments,
    {
        CompoundCurve { segments }
    }
}

impl Region {
    pub fn new(exterior: CompoundCurve, interiors: Vec<CompoundCurve>) -> (r: Region)
        ensures
            r.exterior == exterior,
            r.interiors == interiors,
    {
        Region { exterior, interiors }
    }
}

/// The segments that cutting the span `(p0, p1)` from a curve yields.
///
/// `p0 < p1` keeps the interior material between the parameters, as one
/// segment. `p0 >= p1` means the span wraps the circular domain seam: the
/// kept material is the exterior, returned as the wrapped tail piece followed
/// by the head piece, so that concatenation stays continuous across the seam.
pub open spec fn spec_try_trim(subject: bool, p0: u64, p1: u64) -> Seq<TrimmedSegment> {
    if p0 < p1 {
        seq![
            TrimmedSegment { subject: subject, piece: CurvePiece::Interior { start: p0, end: p1 } },
        ]
    } else {
        seq![
            TrimmedSegment { subject: subject, piece: CurvePiece::TailToEnd { start: p0 } },
            TrimmedSegment { subject: subject, piece: CurvePiece::HeadFromStart { end: p1 } },
        ]
    }
}

/// Cut the parameter span `(p0, p1)` from the curve named by `subject`.
///
/// Returns one interior segment when `p0 < p1`, and the two exterior pieces
/// in seam order (wrapped tail first, then head) when the span wraps the
/// circular domain; swapping that order would break closure of the assembled
/// boundary.
pub fn try_trim(subject: bool, p0: u64, p1: u64) -> (segments: Vec<TrimmedSegment>)
    ensures
        segments@ == spec_try_trim(subject, p0, p1),
{
    let mut segments: Vec<TrimmedSegment> = Vec::new();
    if p0 < p1 {
        segments.push(TrimmedSegment { subject, piece: CurvePiece::Interior { start: p0, end: p1 } });
    } else {
        segments.push(TrimmedSegment { subject, piece: CurvePiece::TailToEnd { start: p0 } });
        segments.push(TrimmedSegment { subject, piece: CurvePiece::HeadFromStart { end: p1 } });
    }
    proof {
        assert(segments@ =~= spec_try_trim(subject, p0, p1));
    }
    segments
}

} // verus!
