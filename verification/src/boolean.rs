use vstd::prelude::*;
use crate::error::BooleanError;
use crate::graph::{
    build_graph, effective_first, lemma_same_structure_symm, list_alternating, list_linked,
    list_sorted, same_structure, Graph,
};
use crate::node::{IntersectionRecord, Node, NodeId};
use crate::operation::BooleanOperation;
use crate::region::{spec_try_trim, try_trim, CompoundCurve, Region, TrimmedSegment};
use crate::sorting::is_permutation;
use crate::status::Status;
use crate::traversal::{
    in_paths, lemma_paths_structural_transfer, node_of, paths_closed, paths_disjoint,
    paths_start_order, paths_wf, traverse,
};

verus! {

/// What one pair of adjacent walked nodes contributes to a region boundary:
/// the span from the `Enter` parameter to the `Exit` parameter on their
/// common curve. A pair of equal statuses marks a broken invariant and is
/// dropped; a cross-curve pair is a degenerate artifact and is skipped.
pub open spec fn spec_pair_segments(n0: Node, n1: Node) -> Seq<TrimmedSegment> {
    if n0.status == n1.status {
        Seq::empty()
    } else if n0.subject != n1.subject {
        Seq::empty()
    } else if n0.status == Status::Enter {
        spec_try_trim(n0.subject, n0.parameter, n1.parameter)
    } else {
        spec_try_trim(n0.subject, n1.parameter, n0.parameter)
    }
}

/// The segments of the first `t` path entries, consumed in consecutive pairs.
pub open spec fn spec_spans_upto(g: Graph, path: Seq<NodeId>, t: int) -> Seq<TrimmedSegment>
    decreases t,
{
    if t < 2 {
        Seq::empty()
    } else {
        spec_spans_upto(g, path, t - 2) + spec_pair_segments(
            g.node_at(path[t - 2]),
            g.node_at(path[t - 1]),
        )
    }
}

/// How many invalid (equal-status) pairs stand among the first `t` path
/// entries: the count a call surfaces as its near-degeneracy diagnostic.
pub open spec fn spec_dropped_upto(g: Graph, path: Seq<NodeId>, t: int) -> int
    decreases t,
{
    if t < 2 {
        0
    } else {
        spec_dropped_upto(g, path, t - 2) + (if g.node_at(path[t - 2]).status == g.node_at(
            path[t - 1],
        ).status {
            1int
        } else {
            0int
        })
    }
}

/// Every consecutive pair of the path lies on one curve with opposite
/// statuses (what a well-formed walk guarantees).
pub open spec fn pairs_valid(g: Graph, path: Seq<NodeId>) -> bool {
    forall|t: int|
        0 <= t < path.len() && t % 2 == 1 ==> g.node_at(#[trigger] path[t]).status != g.node_at(
            path[t - 1],
        ).status && g.node_at(path[t]).subject == g.node_at(path[t - 1]).subject
}

/// Turn one closed walk into one region: consume the path in consecutive
/// pairs, orient each pair `Enter` to `Exit`, and cut that span from the
/// pair's curve. An invalid pair (equal statuses) is dropped defensively and
/// counted; the count is the call's diagnostic for near-degenerate inputs.
#[verifier::rlimit(100)]
#[verifier::spinoff_prover]
pub fn assemble_region(g: &Graph, path: &Vec<NodeId>) -> (r: (Region, usize))
    requires
        g.b@.len() == g.a@.len(),
        forall|t: int| 0 <= t < path@.len() ==> g.id_wf(#[trigger] path@[t]),
        path@.len() % 2 == 0,
    ensures
        r.0.exterior.segments@ == spec_spans_upto(*g, path@, path@.len() as int),
        r.0.interiors@.len() == 0,
        r.1 == spec_dropped_upto(*g, path@, path@.len() as int),
        pairs_valid(*g, path@) ==> r.1 == 0,
{
    let n = path.len();
    let mut segments: Vec<TrimmedSegment> = Vec::new();
    let mut dropped: usize = 0;
    let mut t: usize = 0;
    while t < n
        invariant
            g.b@.len() == g.a@.len(),
            forall|u: int| 0 <= u < path@.len() ==> g.id_wf(#[trigger] path@[u]),
            n == path@.len(),
            n % 2 == 0,
            t % 2 == 0,
            t <= n,
            segments@ == spec_spans_upto(*g, path@, t as int),
            dropped <= t / 2,
            dropped == spec_dropped_upto(*g, path@, t as int),
            pairs_valid(*g, path@) ==> dropped == 0,
        decreases n - t,
    {
        let n0 = node_of(g, path[t]);
        let n1 = node_of(g, path[t + 1]);
        if n0.status == n1.status {
            dropped = dropped + 1;
            proof {
                assert(g.node_at(path@[t + 1]).status == g.node_at(path@[t as int]).status);
            }
        } else if n0.subject != n1.subject {
        } else {
            let (p0, p1) = if n0.status == Status::Enter {
                (n0.parameter, n1.parameter)
            } else {
                (n1.parameter, n0.parameter)
            };
            let mut cut = try_trim(n0.subject, p0, p1);
            segments.append(&mut cut);
        }
        proof {
            assert(segments@ =~= spec_spans_upto(*g, path@, t + 2));
        }
        t = t + 2;
    }
    (Region::new(CompoundCurve::new(segments), Vec::new()), dropped)
}

/// Everything a boolean call returns on success: the regions of the result
/// set, the subject curve's final node list (for diagnostics and
/// visualization), and how many broken walk pairs were dropped defensively
/// (zero on well-formed input; nonzero flags a near-degenerate configuration
/// that slipped past the intersection solver).
#[derive(Debug)]
pub struct BooleanOutcome {
    pub regions: Vec<Region>,
    pub nodes: Vec<Node>,
    pub dropped_pairs: usize,
}

/// The two curves of a boolean call, as the external collaborators report
/// them: the transversal crossings from the intersection solver, and the two
/// containment answers for the curves' domain-start points.
pub struct CurveArrangement {
    /// The solver's crossing records (deduplicated, transversal only).
    pub records: Vec<IntersectionRecord>,
    /// Whether the clip curve contains the subject curve's domain-start point.
    pub clip_contains_subject_start: bool,
    /// Whether the subject curve contains the clip curve's domain-start point.
    pub subject_contains_clip_start: bool,
}

/// A trait for boolean operations.
pub trait Boolean {
    type Output;

    fn union(&self) -> Self::Output;

    fn intersection(&self) -> Self::Output;

    fn difference(&self) -> Self::Output;

    fn boolean(&self, operation: BooleanOperation) -> Self::Output;
}

/// The full shape of a successful boolean call: there is a well-formed
/// crossing graph, built from the records (through position permutations
/// `pa`, `pb`) and phased for the operation, whose subject list the call
/// returns fully consumed, and there is a walk decomposition of that graph
/// (closed chained walks, pairwise disjoint, covering every node exactly
/// once, each started at the engine's scan position) whose consecutive pairs
/// yield exactly the returned regions, in walk order.
pub open spec fn outcome_matches(
    arr: CurveArrangement,
    operation: BooleanOperation,
    out: BooleanOutcome,
    g: Graph,
    paths: Seq<Vec<NodeId>>,
    pa: Seq<usize>,
    pb: Seq<usize>,
) -> bool {
    let records = arr.records@;
    &&& g.wf()
    &&& g.k() == records.len()
    &&& g.record_match(records, pa, pb)
    &&& g.a@ == out.nodes@
    &&& g.a@[0].status == effective_first(
        !arr.clip_contains_subject_start,
        operation.inverts_subject(),
    )
    &&& g.b@[0].status == effective_first(
        !arr.subject_contains_clip_start,
        operation.inverts_clip(),
    )
    &&& forall|x: NodeId| g.id_wf(x) ==> g.is_visited(x)
    &&& paths_wf(g, paths)
    &&& paths_closed(g, paths)
    &&& paths_start_order(paths)
    &&& paths_disjoint(paths)
    &&& forall|x: NodeId| g.id_wf(x) ==> in_paths(paths, x)
    &&& out.regions@.len() == paths.len()
    &&& forall|j: int|
        0 <= j < paths.len() ==> (#[trigger] out.regions@[j]).exterior.segments@
            == spec_spans_upto(g, paths[j]@, paths[j]@.len() as int)
            && out.regions@[j].interiors@.len() == 0
}

/// Everything a boolean call promises, for the given operation: the exact
/// error taxonomy, the returned subject list's structure (length, one
/// circular chain in ascending parameter order, alternating statuses with
/// the operation's phase, in-range pairwise-distinct cross links, all nodes
/// consumed), a zero dropped-pair diagnostic, and a graph-and-walks witness
/// that pins every returned region's segments.
pub open spec fn boolean_post(
    arr: CurveArrangement,
    operation: BooleanOperation,
    r: Result<BooleanOutcome, BooleanError>,
) -> bool {
    &&& (r is Ok <==> (arr.records@.len() >= 2 && arr.records@.len() % 2 == 0))
    &&& (arr.records@.len() < 2 ==> r == Err::<BooleanOutcome, BooleanError>(
        BooleanError::NoIntersection,
    ))
    &&& (arr.records@.len() >= 2 && arr.records@.len() % 2 != 0 ==> r == Err::<
        BooleanOutcome,
        BooleanError,
    >(BooleanError::OddIntersectionCount))
    &&& (r matches Ok(out) ==> {
        &&& out.nodes@.len() == arr.records@.len()
        &&& list_sorted(out.nodes@)
        &&& list_alternating(out.nodes@)
        &&& list_linked(out.nodes@, true)
        &&& forall|i: int|
            0 <= i < out.nodes@.len() ==> (#[trigger] out.nodes@[i]).cross < out.nodes@.len()
        &&& forall|i1: int, i2: int|
            0 <= i1 < i2 < out.nodes@.len() ==> (#[trigger] out.nodes@[i1]).cross != (
            #[trigger] out.nodes@[i2]).cross
        &&& out.nodes@[0].status == effective_first(
            !arr.clip_contains_subject_start,
            operation.inverts_subject(),
        )
        &&& forall|i: int| 0 <= i < out.nodes@.len() ==> (#[trigger] out.nodes@[i]).visited
        &&& out.dropped_pairs == 0
        &&& exists|g: Graph, paths: Seq<Vec<NodeId>>, pa: Seq<usize>, pb: Seq<usize>|
            #[trigger] outcome_matches(arr, operation, out, g, paths, pa, pb)
    })
}

impl CurveArrangement {
    pub fn new(
        records: Vec<IntersectionRecord>,
        clip_contains_subject_start: bool,
        subject_contains_clip_start: bool,
    ) -> (r: CurveArrangement)
        ensures
            r.records == records,
            r.clip_contains_subject_start == clip_contains_subject_start,
            r.subject_contains_clip_start == subject_contains_clip_start,
    {
        CurveArrangement { records, clip_contains_subject_start, subject_contains_clip_start }
    }

    /// Boolean operation for two closed curves, in the classical clipping
    /// model: build the cross-linked node graph from the crossings, classify
    /// and invert statuses for the operation, walk it to closed paths, and
    /// cut each path's spans into one region per walk.
    ///
    /// Fails with `NoIntersection` on fewer than two crossings (the disjoint
    /// and fully-nested cases are defined failures) and with
    /// `OddIntersectionCount` on an odd crossing count.
    #[verifier::rlimit(100)]
    pub fn boolean(&self, operation: BooleanOperation) -> (r: Result<
        BooleanOutcome,
        BooleanError,
    >)
        ensures
            boolean_post(*self, operation, r),
    {
        let subject_flag = !self.clip_contains_subject_start;
        let clip_flag = !self.subject_contains_clip_start;
        let mut g = match build_graph(&self.records, operation, subject_flag, clip_flag) {
            Ok(g) => g,
            Err(e) => {
                return Err(e);
            },
        };
        let ghost g_init = g;
        let paths = traverse(&mut g);
        let mut regions: Vec<Region> = Vec::new();
        let mut dropped: usize = 0;
        let n = paths.len();
        let mut p: usize = 0;
        while p < n
            invariant
                g.wf(),
                n == paths@.len(),
                p <= n,
                g_init.wf(),
                same_structure(g_init, g),
                g.k() == g_init.k(),
                paths_wf(g_init, paths@),
                dropped == 0,
                regions@.len() == p,
                forall|j: int|
                    0 <= j < regions@.len() ==> (#[trigger] regions@[j]).exterior.segments@
                        == spec_spans_upto(g, paths@[j]@, paths@[j]@.len() as int)
                        && regions@[j].interiors@.len() == 0,
            decreases n - p,
        {
            proof {
                lemma_pairs_valid(g_init, g, paths@[p as int]@);
            }
            let (region, d) = assemble_region(&g, &paths[p]);
            regions.push(region);
            dropped = dropped + d;
            p = p + 1;
        }
        let ghost gf = g;
        let ghost recs = self.records@;
        let ghost k = recs.len() as int;
        let ghost sf = effective_first(
            !self.clip_contains_subject_start,
            operation.inverts_subject(),
        );
        let ghost cf = effective_first(
            !self.subject_contains_clip_start,
            operation.inverts_clip(),
        );
        proof {
            assert forall|i: int| 0 <= i < k implies crate::graph::same_but_visited(
                #[trigger] gf.a@[i],
                g_init.a@[i],
            ) && crate::graph::same_but_visited(#[trigger] gf.b@[i], g_init.b@[i]) by {}
            assert forall|i: int| 0 <= i < k implies (#[trigger] gf.a@[i]).visited by {
                let x = NodeId { subject: true, index: i as usize };
                assert(gf.is_visited(x));
                assert(gf.node_at(x) == gf.a@[i]);
            }
            let (pa, pb) = choose|pa: Seq<usize>, pb: Seq<usize>|
                g_init.record_match(recs, pa, pb);
            assert(gf.record_match(recs, pa, pb)) by {
                assert forall|i: int| 0 <= i < k implies (#[trigger] gf.a@[i]).parameter
                    == recs[pa[i] as int].param_a && pb[gf.a@[i].cross as int] == pa[i] by {
                    assert(g_init.a@[i].parameter == recs[pa[i] as int].param_a);
                    assert(pb[g_init.a@[i].cross as int] == pa[i]);
                }
                assert forall|i: int| 0 <= i < k implies (#[trigger] gf.b@[i]).parameter
                    == recs[pb[i] as int].param_b by {
                    assert(g_init.b@[i].parameter == recs[pb[i] as int].param_b);
                }
            }
            assert forall|i1: int, i2: int| 0 <= i1 < i2 < k implies (
            #[trigger] gf.a@[i1]).cross != (#[trigger] gf.a@[i2]).cross by {
                if gf.a@[i1].cross == gf.a@[i2].cross {
                    let j = gf.a@[i1].cross as int;
                    assert(gf.b@[j].cross as int == i1);
                    assert(gf.b@[j].cross as int == i2);
                }
            }
            assert(gf.a@[0].status == sf && gf.b@[0].status == cf);
            lemma_same_structure_symm(g_init, gf);
            lemma_paths_structural_transfer(gf, g_init, paths@);
            assert forall|x: NodeId| gf.id_wf(x) implies in_paths(paths@, x) by {
                assert(g_init.id_wf(x));
            }
            assert(outcome_matches(
                *self,
                operation,
                BooleanOutcome { regions: regions, nodes: gf.a, dropped_pairs: dropped },
                gf,
                paths@,
                pa,
                pb,
            ));
        }
        Ok(BooleanOutcome { regions, nodes: g.a, dropped_pairs: dropped })
    }
}

/// A walked path always pairs a node with a same-curve node of the opposite
/// status: the step move stays on the owning list and alternation flips the
/// status.
proof fn lemma_pairs_valid(g_init: Graph, g: Graph, path: Seq<NodeId>)
    requires
        g_init.wf(),
        g.wf(),
        same_structure(g_init, g),
        g.k() == g_init.k(),
        crate::traversal::path_chained(g_init, path),
        path.len() % 2 == 0,
    ensures
        pairs_valid(g, path),
        forall|t: int| 0 <= t < path.len() ==> g.id_wf(#[trigger] path[t]),
{
    assert forall|t: int| 0 <= t < path.len() implies g.id_wf(#[trigger] path[t]) by {
        assert(g_init.id_wf(path[t]));
    }
    assert forall|t: int| 0 <= t < path.len() && t % 2 == 1 implies g.node_at(
        #[trigger] path[t],
    ).status != g.node_at(path[t - 1]).status && g.node_at(path[t]).subject == g.node_at(
        path[t - 1],
    ).subject by {
        let x = path[t - 1];
        assert(path[t] == g_init.step(x));
        crate::graph::lemma_step_involution(g_init, x);
        if x.subject {
            assert(crate::graph::same_but_visited(g.a@[x.index as int], g_init.a@[x.index as int]));
        } else {
            assert(crate::graph::same_but_visited(g.b@[x.index as int], g_init.b@[x.index as int]));
        }
        let y = path[t];
        if y.subject {
            assert(crate::graph::same_but_visited(g.a@[y.index as int], g_init.a@[y.index as int]));
        } else {
            assert(crate::graph::same_but_visited(g.b@[y.index as int], g_init.b@[y.index as int]));
        }
    }
}

impl Boolean for CurveArrangement {
    type Output = Result<BooleanOutcome, BooleanError>;

    /// The union of the two curves' regions: the boolean call with the
    /// `Union` operation.
    fn union(&self) -> (r: Self::Output)
        ensures
            boolean_post(*self, BooleanOperation::Union, r),
    {
        CurveArrangement::boolean(self, BooleanOperation::Union)
    }

    /// The intersection of the two curves' regions: the boolean call with
    /// the `Intersection` operation.
    fn intersection(&self) -> (r: Self::Output)
        ensures
            boolean_post(*self, BooleanOperation::Intersection, r),
    {
        CurveArrangement::boolean(self, BooleanOperation::Intersection)
    }

    /// The subject curve's region minus the clip curve's region: the boolean
    /// call with the `Difference` operation.
    fn difference(&self) -> (r: Self::Output)
        ensures
            boolean_post(*self, BooleanOperation::Difference, r),
    {
        CurveArrangement::boolean(self, BooleanOperation::Difference)
    }

    /// The boolean operation `operation` on the two curves.
    fn boolean(&self, operation: BooleanOperation) -> (r: Self::Output)
        ensures
            boolean_post(*self, operation, r),
    {
        CurveArrangement::boolean(self, operation)
    }
}

} // verus!
