use curve_boolean::boolean::{Boolean, BooleanOutcome, CurveArrangement};
use curve_boolean::error::BooleanError;
use curve_boolean::node::IntersectionRecord;
use curve_boolean::operation::BooleanOperation;
use curve_boolean::region::{try_trim, CurvePiece, TrimmedSegment};
use curve_boolean::status::Status;

fn rec(param_a: u64, param_b: u64) -> IntersectionRecord {
    IntersectionRecord { param_a, param_b }
}

fn interior(subject: bool, start: u64, end: u64) -> TrimmedSegment {
    TrimmedSegment { subject, piece: CurvePiece::Interior { start, end } }
}

fn tail_to_end(subject: bool, start: u64) -> TrimmedSegment {
    TrimmedSegment { subject, piece: CurvePiece::TailToEnd { start } }
}

fn head_from_start(subject: bool, end: u64) -> TrimmedSegment {
    TrimmedSegment { subject, piece: CurvePiece::HeadFromStart { end } }
}

/// Two congruent circles overlapping in a lens: two crossings, neither
/// curve's start point inside the other.
fn lens_circles() -> CurveArrangement {
    CurveArrangement::new(vec![rec(100, 600), rec(300, 400)], false, false)
}

#[test]
fn lens_intersection_is_one_region_of_two_arcs() {
    let out = lens_circles().intersection().unwrap();
    assert_eq!(out.regions.len(), 1);
    let segs = &out.regions[0].exterior.segments;
    assert_eq!(segs.len(), 2);
    assert_eq!(segs[0], interior(true, 100, 300));
    assert_eq!(segs[1], interior(false, 400, 600));
    assert_eq!(out.dropped_pairs, 0);
}

#[test]
fn lens_union_is_one_region() {
    let out = lens_circles().union().unwrap();
    assert_eq!(out.regions.len(), 1);
    let segs = &out.regions[0].exterior.segments;
    assert_eq!(
        segs.as_slice(),
        &[
            tail_to_end(true, 300),
            head_from_start(true, 100),
            tail_to_end(false, 600),
            head_from_start(false, 400),
        ]
    );
}

#[test]
fn lens_difference_is_one_crescent_with_one_arc_from_each_curve() {
    let out = lens_circles().difference().unwrap();
    assert_eq!(out.regions.len(), 1);
    let segs = &out.regions[0].exterior.segments;
    assert_eq!(
        segs.as_slice(),
        &[
            tail_to_end(true, 300),
            head_from_start(true, 100),
            interior(false, 400, 600),
        ]
    );
    // exactly one span of each input curve bounds the crescent
    assert_eq!(segs.iter().filter(|s| s.subject).count(), 2); // one wrapped arc, in two seam pieces
    assert_eq!(segs.iter().filter(|s| !s.subject).count(), 1);
}

#[test]
fn separated_circles_fail_with_no_intersection() {
    let arr = CurveArrangement::new(vec![], false, false);
    assert_eq!(arr.union().unwrap_err(), BooleanError::NoIntersection);
    assert_eq!(arr.intersection().unwrap_err(), BooleanError::NoIntersection);
    assert_eq!(arr.difference().unwrap_err(), BooleanError::NoIntersection);
}

#[test]
fn tangential_contact_only_fails_with_no_intersection() {
    // a tangential touch is filtered by the intersection solver's contract,
    // so the call sees no crossings at all
    let arr = CurveArrangement::new(vec![], true, false);
    assert_eq!(
        arr.boolean(BooleanOperation::Intersection).unwrap_err(),
        BooleanError::NoIntersection
    );
}

#[test]
fn single_crossing_fails_with_no_intersection() {
    let arr = CurveArrangement::new(vec![rec(5, 7)], false, false);
    assert_eq!(arr.intersection().unwrap_err(), BooleanError::NoIntersection);
}

#[test]
fn odd_crossing_count_fails() {
    let arr = CurveArrangement::new(vec![rec(1, 2), rec(3, 4), rec(5, 6)], false, false);
    assert_eq!(
        arr.intersection().unwrap_err(),
        BooleanError::OddIntersectionCount
    );
    assert_eq!(arr.union().unwrap_err(), BooleanError::OddIntersectionCount);
}

/// Two curves crossing four times (two separate lens regions).
fn four_crossings() -> CurveArrangement {
    CurveArrangement::new(
        vec![rec(10, 15), rec(20, 25), rec(30, 35), rec(40, 45)],
        false,
        false,
    )
}

#[test]
fn four_crossings_intersection_gives_two_regions_consuming_all_nodes() {
    let out = four_crossings().intersection().unwrap();
    assert_eq!(out.regions.len(), 2);
    assert_eq!(
        out.regions[0].exterior.segments.as_slice(),
        &[interior(true, 10, 20), interior(false, 15, 25)]
    );
    assert_eq!(
        out.regions[1].exterior.segments.as_slice(),
        &[interior(true, 30, 40), interior(false, 35, 45)]
    );
    assert_eq!(out.nodes.len(), 4);
    assert!(out.nodes.iter().all(|n| n.visited));
    assert_eq!(out.dropped_pairs, 0);
}

#[test]
fn statuses_alternate_and_follow_the_inversion_table() {
    let nodes = |out: BooleanOutcome| out.nodes;
    // intersection: no inversion; start outside => Enter first
    let n = nodes(four_crossings().intersection().unwrap());
    let statuses: Vec<Status> = n.iter().map(|nd| nd.status).collect();
    assert_eq!(
        statuses,
        vec![Status::Enter, Status::Exit, Status::Enter, Status::Exit]
    );
    // union: subject list inverted
    let n = nodes(four_crossings().union().unwrap());
    let statuses: Vec<Status> = n.iter().map(|nd| nd.status).collect();
    assert_eq!(
        statuses,
        vec![Status::Exit, Status::Enter, Status::Exit, Status::Enter]
    );
    // difference: subject list inverted as well
    let n = nodes(four_crossings().difference().unwrap());
    let statuses: Vec<Status> = n.iter().map(|nd| nd.status).collect();
    assert_eq!(statuses[0], Status::Exit);
}

#[test]
fn unsorted_records_are_sorted_by_subject_parameter() {
    // same lens as above, records handed over in reverse order: the node list
    // must come out ascending by subject parameter, so the regions match
    let arr = CurveArrangement::new(vec![rec(300, 400), rec(100, 600)], false, false);
    let out = arr.intersection().unwrap();
    assert_eq!(out.nodes[0].parameter, 100);
    assert_eq!(out.nodes[1].parameter, 300);
    assert!(out.nodes[0].parameter <= out.nodes[1].parameter);
    let segs = &out.regions[0].exterior.segments;
    assert_eq!(segs[0], interior(true, 100, 300));
    assert_eq!(segs[1], interior(false, 400, 600));
}

#[test]
fn every_node_is_visited_exactly_once_after_traversal() {
    let out = four_crossings().union().unwrap();
    assert!(out.nodes.iter().all(|n| n.visited));
    let out2 = lens_circles().difference().unwrap();
    assert!(out2.nodes.iter().all(|n| n.visited));
}

#[test]
fn try_trim_keeps_interior_for_ascending_span() {
    let cut = try_trim(true, 3, 9);
    assert_eq!(cut.as_slice(), &[interior(true, 3, 9)]);
}

#[test]
fn try_trim_wraps_seam_tail_piece_first() {
    let cut = try_trim(false, 9, 3);
    assert_eq!(
        cut.as_slice(),
        &[tail_to_end(false, 9), head_from_start(false, 3)]
    );
    // equal parameters wrap the whole domain
    let cut = try_trim(true, 4, 4);
    assert_eq!(cut.as_slice(), &[tail_to_end(true, 4), head_from_start(true, 4)]);
}

#[test]
fn status_invert_swaps_enter_and_exit() {
    let mut s = Status::Enter;
    s.invert();
    assert_eq!(s, Status::Exit);
    s.invert();
    assert_eq!(s, Status::Enter);
}

#[test]
fn regions_never_carry_holes() {
    let out = four_crossings().union().unwrap();
    assert!(out.regions.iter().all(|r| r.interiors.is_empty()));
}

#[test]
fn partition_identity_on_lens_boundaries() {
    // Set-partition law, at the level of trim directives: over the four calls
    // Union(A,B), Intersection(A,B), Difference(A,B) and Difference(B,A),
    // every boundary piece of each input curve is cut exactly twice, so the
    // union's boundary material equals what the other three calls produce
    // together (shared boundaries counted twice at the crossing parameters).
    let a_subject = lens_circles();
    // the same two circles with the roles swapped: B is the subject
    let b_subject = CurveArrangement::new(vec![rec(600, 100), rec(400, 300)], false, false);

    let outcomes = vec![
        (a_subject.union().unwrap(), false),
        (a_subject.intersection().unwrap(), false),
        (a_subject.difference().unwrap(), false),
        (b_subject.difference().unwrap(), true),
    ];

    let mut on_circle_a: Vec<CurvePiece> = Vec::new();
    let mut on_circle_b: Vec<CurvePiece> = Vec::new();
    for (out, swapped) in &outcomes {
        for region in &out.regions {
            for seg in &region.exterior.segments {
                if seg.subject != *swapped {
                    on_circle_a.push(seg.piece);
                } else {
                    on_circle_b.push(seg.piece);
                }
            }
        }
    }

    let count = |v: &Vec<CurvePiece>, p: CurvePiece| v.iter().filter(|&&q| q == p).count();
    assert_eq!(on_circle_a.len(), 6);
    assert_eq!(count(&on_circle_a, CurvePiece::Interior { start: 100, end: 300 }), 2);
    assert_eq!(count(&on_circle_a, CurvePiece::TailToEnd { start: 300 }), 2);
    assert_eq!(count(&on_circle_a, CurvePiece::HeadFromStart { end: 100 }), 2);
    assert_eq!(on_circle_b.len(), 6);
    assert_eq!(count(&on_circle_b, CurvePiece::Interior { start: 400, end: 600 }), 2);
    assert_eq!(count(&on_circle_b, CurvePiece::TailToEnd { start: 600 }), 2);
    assert_eq!(count(&on_circle_b, CurvePiece::HeadFromStart { end: 400 }), 2);
}
