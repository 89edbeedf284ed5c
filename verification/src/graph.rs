use vstd::prelude::*;
use crate::error::BooleanError;
use crate::node::{IntersectionRecord, Node, NodeId};
use crate::operation::BooleanOperation;
use crate::sorting::{is_permutation, position_of, sort_positions, sorting_permutation};
use crate::status::Status;

verus! {

/// The circular successor of position `i` in a list of length `k`.
pub open spec fn next_index(i: int, k: int) -> int {
    if i + 1 == k {
        0
    } else {
        i + 1
    }
}

/// The circular predecessor of position `i` in a list of length `k`.
pub open spec fn prev_index(i: int, k: int) -> int {
    if i == 0 {
        k - 1
    } else {
        i - 1
    }
}

/// The status that alternating seeding assigns at position `i` when position
/// 0 receives `first`.
pub open spec fn seeded_status(first: Status, i: int) -> Status {
    if i % 2 == 0 {
        first
    } else {
        first.flipped()
    }
}

/// The status at position 0 of a list after seeding from containment answer
/// `flag` and applying the operation's inversion (`inverted`).
pub open spec fn effective_first(flag: bool, inverted: bool) -> Status {
    if flag != inverted {
        Status::Enter
    } else {
        Status::Exit
    }
}

/// `n2` equals `n1` in every field except possibly `status`.
pub open spec fn same_but_status(n2: Node, n1: Node) -> bool {
    &&& n2.subject == n1.subject
    &&& n2.parameter == n1.parameter
    &&& n2.visited == n1.visited
    &&& n2.next == n1.next
    &&& n2.prev == n1.prev
    &&& n2.cross == n1.cross
}

/// `n2` equals `n1` in every field except possibly `visited`.
pub open spec fn same_but_visited(n2: Node, n1: Node) -> bool {
    &&& n2.subject == n1.subject
    &&& n2.parameter == n1.parameter
    &&& n2.status == n1.status
    &&& n2.next == n1.next
    &&& n2.prev == n1.prev
    &&& n2.cross == n1.cross
}

/// Every node of `nodes` carries the owning-curve flag `subject` and
/// `next`/`prev` indices that close the list into one circular chain in
/// position order.
pub open spec fn list_linked(nodes: Seq<Node>, subject: bool) -> bool {
    &&& forall|i: int| 0 <= i < nodes.len() ==> (#[trigger] nodes[i]).subject == subject
    &&& forall|i: int|
        0 <= i < nodes.len() ==> (#[trigger] nodes[i]).next as int == next_index(
            i,
            nodes.len() as int,
        )
    &&& forall|i: int|
        0 <= i < nodes.len() ==> (#[trigger] nodes[i]).prev as int == prev_index(
            i,
            nodes.len() as int,
        )
}

/// Parameters are ascending along the list.
pub open spec fn list_sorted(nodes: Seq<Node>) -> bool {
    forall|i: int, j: int|
        0 <= i <= j < nodes.len() ==> (#[trigger] nodes[i]).parameter <= (
        #[trigger] nodes[j]).parameter
}

/// Statuses strictly alternate along the list, starting from the status of
/// position 0.
pub open spec fn list_alternating(nodes: Seq<Node>) -> bool {
    forall|i: int|
        0 <= i < nodes.len() ==> (#[trigger] nodes[i]).status == seeded_status(
            nodes[0].status,
            i,
        )
}

/// The crossing graph: one circular node list per input curve, stored as flat
/// arrays. `next`/`prev` index the owning list and `cross` indexes the other
/// list, so the ephemeral per-call graph needs no shared ownership.
pub struct Graph {
    /// The subject (first) curve's list, in ascending parameter order.
    pub a: Vec<Node>,
    /// The clip (second) curve's list, in ascending parameter order.
    pub b: Vec<Node>,
}

impl Graph {
    /// The number of crossings; both lists have this length.
    pub open spec fn k(self) -> int {
        self.a@.len() as int
    }

    /// `id` names a node of this graph.
    pub open spec fn id_wf(self, id: NodeId) -> bool {
        (id.index as int) < self.k()
    }

    /// The node `id` names.
    pub open spec fn node_at(self, id: NodeId) -> Node {
        if id.subject {
            self.a@[id.index as int]
        } else {
            self.b@[id.index as int]
        }
    }

    /// Whether the traversal engine has consumed the node `id` names.
    pub open spec fn is_visited(self, id: NodeId) -> bool {
        self.node_at(id).visited
    }

    /// The status-directed step: an `Enter` node hands the walk to its
    /// parameter-order successor, an `Exit` node to its predecessor.
    pub open spec fn step(self, id: NodeId) -> NodeId {
        let nd = self.node_at(id);
        NodeId {
            subject: id.subject,
            index: if nd.status == Status::Enter {
                nd.next
            } else {
                nd.prev
            },
        }
    }

    /// The cross-link jump to the counterpart node on the other list.
    pub open spec fn cross(self, id: NodeId) -> NodeId {
        NodeId { subject: !id.subject, index: self.node_at(id).cross }
    }

    /// Cross links are in range and mutually inverse between the two lists.
    pub open spec fn cross_linked(self) -> bool {
        &&& forall|i: int| 0 <= i < self.k() ==> (#[trigger] self.a@[i]).cross < self.k()
        &&& forall|i: int| 0 <= i < self.k() ==> (#[trigger] self.b@[i]).cross < self.k()
        &&& forall|i: int, j: int|
            0 <= i < self.k() && 0 <= j < self.k() && (#[trigger] self.a@[i]).cross == j ==> (
            #[trigger] self.b@[j]).cross as int == i
        &&& forall|i: int, j: int|
            0 <= i < self.k() && 0 <= j < self.k() && (#[trigger] self.b@[i]).cross == j ==> (
            #[trigger] self.a@[j]).cross as int == i
    }

    /// Structural well-formedness of the graph: an even number (at least two)
    /// of crossings, two circular lists in ascending parameter order with
    /// strictly alternating statuses, cross-linked pairwise. Visitation flags
    /// are not constrained.
    pub open spec fn wf(self) -> bool {
        &&& self.b@.len() == self.a@.len()
        &&& 2 <= self.k()
        &&& self.k() <= usize::MAX as int
        &&& self.k() % 2 == 0
        &&& list_linked(self.a@, true)
        &&& list_linked(self.b@, false)
        &&& list_sorted(self.a@)
        &&& list_sorted(self.b@)
        &&& list_alternating(self.a@)
        &&& list_alternating(self.b@)
        &&& self.cross_linked()
    }

    /// The graph's node lists agree with `records` through the position
    /// permutations `pa` (subject list) and `pb` (clip list): node `i` of a
    /// list carries that curve's parameter of record `pa[i]` resp. `pb[i]`,
    /// and cross partners were built from the same record.
    pub open spec fn record_match(
        self,
        records: Seq<IntersectionRecord>,
        pa: Seq<usize>,
        pb: Seq<usize>,
    ) -> bool {
        &&& is_permutation(pa, records.len() as int)
        &&& is_permutation(pb, records.len() as int)
        &&& self.a@.len() == records.len()
        &&& self.b@.len() == records.len()
        &&& forall|i: int|
            0 <= i < records.len() ==> (#[trigger] self.a@[i]).parameter == records[pa[i] as int].param_a
        &&& forall|i: int|
            0 <= i < records.len() ==> (#[trigger] self.b@[i]).parameter == records[pb[i] as int].param_b
        &&& forall|i: int|
            0 <= i < records.len() ==> pb[(#[trigger] self.a@[i]).cross as int] == pa[i]
    }
}

/// `g2` has the same lists as `g1` up to visitation flags.
pub open spec fn same_structure(g1: Graph, g2: Graph) -> bool {
    &&& g2.a@.len() == g1.a@.len()
    &&& g2.b@.len() == g1.b@.len()
    &&& forall|i: int| 0 <= i < g1.a@.len() ==> same_but_visited(#[trigger] g2.a@[i], g1.a@[i])
    &&& forall|i: int| 0 <= i < g1.b@.len() ==> same_but_visited(#[trigger] g2.b@[i], g1.b@[i])
}

/// `same_structure` composes.
pub proof fn lemma_same_structure_trans(g1: Graph, g2: Graph, g3: Graph)
    requires
        same_structure(g1, g2),
        same_structure(g2, g3),
    ensures
        same_structure(g1, g3),
{
    assert forall|i: int| 0 <= i < g1.a@.len() implies same_but_visited(
        #[trigger] g3.a@[i],
        g1.a@[i],
    ) by {
        assert(same_but_visited(g2.a@[i], g1.a@[i]));
        assert(same_but_visited(g3.a@[i], g2.a@[i]));
    }
    assert forall|i: int| 0 <= i < g1.b@.len() implies same_but_visited(
        #[trigger] g3.b@[i],
        g1.b@[i],
    ) by {
        assert(same_but_visited(g2.b@[i], g1.b@[i]));
        assert(same_but_visited(g3.b@[i], g2.b@[i]));
    }
}

/// `same_structure` is symmetric.
pub proof fn lemma_same_structure_symm(g1: Graph, g2: Graph)
    requires
        same_structure(g1, g2),
    ensures
        same_structure(g2, g1),
{
    assert forall|i: int| 0 <= i < g2.a@.len() implies same_but_visited(
        #[trigger] g1.a@[i],
        g2.a@[i],
    ) by {
        assert(same_but_visited(g2.a@[i], g1.a@[i]));
    }
    assert forall|i: int| 0 <= i < g2.b@.len() implies same_but_visited(
        #[trigger] g1.b@[i],
        g2.b@[i],
    ) by {
        assert(same_but_visited(g2.b@[i], g1.b@[i]));
    }
}

/// Well-formedness never depends on visitation flags, so it survives any
/// structure-preserving change.
pub proof fn lemma_same_structure_wf(g1: Graph, g2: Graph)
    requires
        same_structure(g1, g2),
        g1.wf(),
    ensures
        g2.wf(),
        g2.k() == g1.k(),
{
    assert(list_linked(g2.a@, true));
    assert(list_linked(g2.b@, false));
    assert(list_sorted(g2.a@));
    assert(list_sorted(g2.b@));
    assert forall|i: int| 0 <= i < g2.a@.len() implies (#[trigger] g2.a@[i]).status
        == seeded_status(g2.a@[0].status, i) by {
        assert(g1.a@[i].status == seeded_status(g1.a@[0].status, i));
    }
    assert forall|i: int| 0 <= i < g2.b@.len() implies (#[trigger] g2.b@[i]).status
        == seeded_status(g2.b@[0].status, i) by {
        assert(g1.b@[i].status == seeded_status(g1.b@[0].status, i));
    }
    assert forall|i: int, j: int|
        0 <= i < g2.k() && 0 <= j < g2.k() && (#[trigger] g2.a@[i]).cross == j implies (
    #[trigger] g2.b@[j]).cross as int == i by {
        assert(same_but_visited(g2.a@[i], g1.a@[i]));
        assert(same_but_visited(g2.b@[j], g1.b@[j]));
    }
    assert forall|i: int, j: int|
        0 <= i < g2.k() && 0 <= j < g2.k() && (#[trigger] g2.b@[i]).cross == j implies (
    #[trigger] g2.a@[j]).cross as int == i by {
        assert(same_but_visited(g2.b@[i], g1.b@[i]));
        assert(same_but_visited(g2.a@[j], g1.a@[j]));
    }
}

/// Alternation law for one list: in parameter order, statuses strictly
/// alternate `Enter, Exit, Enter, Exit, ...` between neighbours and, the
/// length being even, also across the circular seam from the last node back
/// to the first. Both lists of a well-formed graph satisfy the requirements.
#[verifier::rlimit(100)]
#[verifier::spinoff_prover]
pub proof fn lemma_list_alternation(nodes: Seq<Node>)
    requires
        2 <= nodes.len(),
        nodes.len() % 2 == 0,
        list_alternating(nodes),
    ensures
        forall|i: int|
            0 <= i < nodes.len() - 1 ==> (#[trigger] nodes[i]).status != nodes[i + 1].status,
        nodes[nodes.len() - 1].status != nodes[0].status,
{
    let first = nodes[0].status;
    assert(first.flipped() != first);
    assert forall|i: int|
        0 <= i < nodes.len() - 1 implies (#[trigger] nodes[i]).status != nodes[i + 1].status by {
        assert(nodes[i].status == seeded_status(first, i));
        assert(nodes[i + 1].status == seeded_status(first, i + 1));
        assert((i + 1) % 2 != i % 2);
    }
    let last = nodes.len() - 1;
    assert(nodes[last].status == seeded_status(first, last));
    assert(last % 2 == 1);
}

/// The status-directed step is an involution that never stands still: it
/// pairs each node with an adjacent node of the opposite status on the same
/// list.
#[verifier::rlimit(50)]
pub proof fn lemma_step_involution(g: Graph, id: NodeId)
    requires
        g.wf(),
        g.id_wf(id),
    ensures
        g.id_wf(g.step(id)),
        g.step(id).subject == id.subject,
        g.step(id) != id,
        g.node_at(g.step(id)).status != g.node_at(id).status,
        g.step(g.step(id)) == id,
{
    let k = g.k();
    let i = id.index as int;
    if id.subject {
        assert(g.node_at(id) == g.a@[i]);
        assert(g.a@[i].status == seeded_status(g.a@[0].status, i));
        let j = g.step(id).index as int;
        if g.a@[i].status == Status::Enter {
            assert(j == next_index(i, k));
        } else {
            assert(j == prev_index(i, k));
        }
        assert(0 <= j < k);
        assert(g.node_at(g.step(id)) == g.a@[j]);
        assert(g.a@[j].status == seeded_status(g.a@[0].status, j));
        assert(j != i);
        assert(g.a@[j].status != g.a@[i].status);
        if g.a@[i].status == Status::Enter {
            assert(g.step(g.step(id)).index as int == prev_index(j, k));
            assert(prev_index(next_index(i, k), k) == i);
        } else {
            assert(g.step(g.step(id)).index as int == next_index(j, k));
            assert(next_index(prev_index(i, k), k) == i);
        }
    } else {
        assert(g.node_at(id) == g.b@[i]);
        assert(g.b@[i].status == seeded_status(g.b@[0].status, i));
        let j = g.step(id).index as int;
        if g.b@[i].status == Status::Enter {
            assert(j == next_index(i, k));
        } else {
            assert(j == prev_index(i, k));
        }
        assert(0 <= j < k);
        assert(g.node_at(g.step(id)) == g.b@[j]);
        assert(g.b@[j].status == seeded_status(g.b@[0].status, j));
        assert(j != i);
        assert(g.b@[j].status != g.b@[i].status);
        if g.b@[i].status == Status::Enter {
            assert(g.step(g.step(id)).index as int == prev_index(j, k));
            assert(prev_index(next_index(i, k), k) == i);
        } else {
            assert(g.step(g.step(id)).index as int == next_index(j, k));
            assert(next_index(prev_index(i, k), k) == i);
        }
    }
}

/// The cross jump is an involution between the two lists.
pub proof fn lemma_cross_involution(g: Graph, id: NodeId)
    requires
        g.wf(),
        g.id_wf(id),
    ensures
        g.id_wf(g.cross(id)),
        g.cross(id).subject == !id.subject,
        g.cross(g.cross(id)) == id,
{
    let i = id.index as int;
    if id.subject {
        assert(g.a@[i].cross < g.k() && g.b@[g.a@[i].cross as int].cross as int == i);
    } else {
        assert(g.b@[i].cross < g.k() && g.a@[g.b@[i].cross as int].cross as int == i);
    }
}

/// The field values a freshly built (pre-seeding) node at position `i` holds.
pub open spec fn node_built(
    nd: Node,
    records: Seq<IntersectionRecord>,
    order_self: Seq<usize>,
    order_other: Seq<usize>,
    subject: bool,
    i: int,
) -> bool {
    &&& nd.subject == subject
    &&& nd.parameter == (if subject {
        records[order_self[i] as int].param_a
    } else {
        records[order_self[i] as int].param_b
    })
    &&& nd.status == Status::Enter
    &&& !nd.visited
    &&& nd.next as int == next_index(i, records.len() as int)
    &&& nd.prev as int == prev_index(i, records.len() as int)
    &&& nd.cross < records.len()
    &&& order_other[nd.cross as int] == order_self[i]
}

/// The parameters of all records on one curve, in record order.
fn collect_keys(records: &Vec<IntersectionRecord>, from_subject: bool) -> (keys: Vec<u64>)
    ensures
        keys@.len() == records@.len(),
        forall|i: int|
            0 <= i < records@.len() ==> #[trigger] keys@[i] == (if from_subject {
                records@[i].param_a
            } else {
                records@[i].param_b
            }),
{
    let n = records.len();
    let mut keys: Vec<u64> = Vec::new();
    for idx in 0..n
        invariant
            n == records@.len(),
            keys@.len() == idx,
            forall|i: int|
                0 <= i < idx ==> #[trigger] keys@[i] == (if from_subject {
                    records@[i].param_a
                } else {
                    records@[i].param_b
                }),
    {
        if from_subject {
            keys.push(records[idx].param_a);
        } else {
            keys.push(records[idx].param_b);
        }
    }
    keys
}

/// Build one list's nodes in the order `order_self` gives, cross-linked to
/// the position the same record occupies in `order_other` (statuses are
/// placeholders until seeding).
fn build_list(
    records: &Vec<IntersectionRecord>,
    order_self: &Vec<usize>,
    order_other: &Vec<usize>,
    subject: bool,
) -> (nodes: Vec<Node>)
    requires
        records@.len() >= 1,
        is_permutation(order_self@, records@.len() as int),
        is_permutation(order_other@, records@.len() as int),
    ensures
        nodes@.len() == records@.len(),
        forall|i: int|
            0 <= i < nodes@.len() ==> node_built(
                #[trigger] nodes@[i],
                records@,
                order_self@,
                order_other@,
                subject,
                i,
            ),
{
    let k = records.len();
    let mut nodes: Vec<Node> = Vec::new();
    for i in 0..k
        invariant
            k == records@.len(),
            k >= 1,
            is_permutation(order_self@, k as int),
            is_permutation(order_other@, k as int),
            nodes@.len() == i,
            forall|t: int|
                0 <= t < i ==> node_built(
                    #[trigger] nodes@[t],
                    records@,
                    order_self@,
                    order_other@,
                    subject,
                    t,
                ),
    {
        let rec = order_self[i];
        let cross = position_of(order_other, rec);
        let parameter = if subject {
            records[rec].param_a
        } else {
            records[rec].param_b
        };
        nodes.push(
            Node {
                subject,
                parameter,
                status: Status::Enter,
                visited: false,
                next: if i + 1 == k {
                    0
                } else {
                    i + 1
                },
                prev: if i == 0 {
                    k - 1
                } else {
                    i - 1
                },
                cross,
            },
        );
    }
    nodes
}

/// Walk the list assigning alternating `Enter`/`Exit` statuses, starting from
/// `flag` (`true` seeds `Enter` first).
fn seed_statuses(nodes: &mut Vec<Node>, flag: bool)
    ensures
        final (nodes)@.len() == old(nodes)@.len(),
        forall|i: int|
            0 <= i < old(nodes)@.len() ==> same_but_status(
                #[trigger] final (nodes)@[i],
                old(nodes)@[i],
            ),
        forall|i: int|
            0 <= i < old(nodes)@.len() ==> (#[trigger] final (nodes)@[i]).status == seeded_status(
                if flag {
                    Status::Enter
                } else {
                    Status::Exit
                },
                i,
            ),
{
    let n = nodes.len();
    let mut f = flag;
    for i in 0..n
        invariant
            n == nodes@.len(),
            nodes@.len() == old(nodes)@.len(),
            f == (flag == (i % 2 == 0)),
            forall|t: int| i <= t < n ==> #[trigger] nodes@[t] == old(nodes)@[t],
            forall|t: int|
                0 <= t < i ==> same_but_status(#[trigger] nodes@[t], old(nodes)@[t]),
            forall|t: int|
                0 <= t < i ==> (#[trigger] nodes@[t]).status == seeded_status(
                    if flag {
                        Status::Enter
                    } else {
                        Status::Exit
                    },
                    t,
                ),
    {
        let mut nd = nodes[i];
        nd.status = if f {
            Status::Enter
        } else {
            Status::Exit
        };
        nodes[i] = nd;
        f = !f;
    }
}

/// Flip every node's status on the list (the operation-dependent inversion).
fn invert_statuses(nodes: &mut Vec<Node>)
    ensures
        final (nodes)@.len() == old(nodes)@.len(),
        forall|i: int|
            0 <= i < old(nodes)@.len() ==> same_but_status(
                #[trigger] final (nodes)@[i],
                old(nodes)@[i],
            ),
        forall|i: int|
            0 <= i < old(nodes)@.len() ==> (#[trigger] final (nodes)@[i]).status == old(
                nodes,
            )@[i].status.flipped(),
{
    let n = nodes.len();
    for i in 0..n
        invariant
            n == nodes@.len(),
            nodes@.len() == old(nodes)@.len(),
            forall|t: int| i <= t < n ==> #[trigger] nodes@[t] == old(nodes)@[t],
            forall|t: int|
                0 <= t < i ==> same_but_status(#[trigger] nodes@[t], old(nodes)@[t]),
            forall|t: int|
                0 <= t < i ==> (#[trigger] nodes@[t]).status == old(nodes)@[t].status.flipped(),
    {
        let mut nd = nodes[i];
        nd.status.invert();
        nodes[i] = nd;
    }
}

/// Turn the solver's crossing records into the cross-linked node graph.
///
/// `subject_flag` seeds the subject list (`true` when the subject curve's
/// domain-start point lies outside the clip curve), `clip_flag` likewise for
/// the clip list; the operation then flips whole lists per the inversion
/// table. Fails with `NoIntersection` on fewer than two crossings and with
/// `OddIntersectionCount` on an odd crossing count.
pub fn build_graph(
    records: &Vec<IntersectionRecord>,
    operation: BooleanOperation,
    subject_flag: bool,
    clip_flag: bool,
) -> (r: Result<Graph, BooleanError>)
    ensures
        r is Ok <==> (records@.len() >= 2 && records@.len() % 2 == 0),
        records@.len() < 2 ==> r == Err::<Graph, BooleanError>(BooleanError::NoIntersection),
        records@.len() >= 2 && records@.len() % 2 != 0 ==> r == Err::<Graph, BooleanError>(
            BooleanError::OddIntersectionCount,
        ),
        r matches Ok(g) ==> {
            &&& g.wf()
            &&& g.k() == records@.len()
            &&& forall|id: NodeId| g.id_wf(id) ==> !g.is_visited(id)
            &&& g.a@[0].status == effective_first(subject_flag, operation.inverts_subject())
            &&& g.b@[0].status == effective_first(clip_flag, operation.inverts_clip())
            &&& exists|pa: Seq<usize>, pb: Seq<usize>| g.record_match(records@, pa, pb)
        },
{
    let k = records.len();
    if k < 2 {
        return Err(BooleanError::NoIntersection);
    }
    if k % 2 != 0 {
        return Err(BooleanError::OddIntersectionCount);
    }
    let keys_a = collect_keys(records, true);
    let keys_b = collect_keys(records, false);
    proof {
        assert(keys_a@ =~= records@.map_values(|r: IntersectionRecord| r.param_a));
        assert(keys_b@ =~= records@.map_values(|r: IntersectionRecord| r.param_b));
    }
    let order_a = sort_positions(&keys_a);
    let order_b = sort_positions(&keys_b);
    let mut a_nodes = build_list(records, &order_a, &order_b, true);
    let mut b_nodes = build_list(records, &order_b, &order_a, false);
    let ghost a_built = a_nodes@;
    let ghost b_built = b_nodes@;
    seed_statuses(&mut a_nodes, subject_flag);
    seed_statuses(&mut b_nodes, clip_flag);
    let ghost a_seeded = a_nodes@;
    let ghost b_seeded = b_nodes@;
    match operation {
        BooleanOperation::Union | BooleanOperation::Difference => {
            invert_statuses(&mut a_nodes);
        },
        _ => {},
    }
    if operation == BooleanOperation::Union {
        invert_statuses(&mut b_nodes);
    }
    let g = Graph { a: a_nodes, b: b_nodes };
    proof {
        let first_a = if subject_flag {
            Status::Enter
        } else {
            Status::Exit
        };
        let first_b = if clip_flag {
            Status::Enter
        } else {
            Status::Exit
        };
        assert forall|i: int| 0 <= i < records@.len() implies same_but_status_built(
            #[trigger] g.a@[i],
            records@,
            order_a@,
            order_b@,
            true,
            i,
        ) && g.a@[i].status == seeded_status(
            effective_first(subject_flag, operation.inverts_subject()),
            i,
        ) by {
            assert(node_built(a_built[i], records@, order_a@, order_b@, true, i));
            assert(same_but_status(a_seeded[i], a_built[i]));
            assert(a_seeded[i].status == seeded_status(first_a, i));
            if operation.inverts_subject() {
                assert(same_but_status(g.a@[i], a_seeded[i]));
                assert(g.a@[i].status == seeded_status(first_a, i).flipped());
            } else {
                assert(g.a@[i] == a_seeded[i]);
            }
        }
        assert forall|i: int| 0 <= i < records@.len() implies same_but_status_built(
            #[trigger] g.b@[i],
            records@,
            order_b@,
            order_a@,
            false,
            i,
        ) && g.b@[i].status == seeded_status(
            effective_first(clip_flag, operation.inverts_clip()),
            i,
        ) by {
            assert(node_built(b_built[i], records@, order_b@, order_a@, false, i));
            assert(same_but_status(b_seeded[i], b_built[i]));
            assert(b_seeded[i].status == seeded_status(first_b, i));
            if operation.inverts_clip() {
                assert(same_but_status(g.b@[i], b_seeded[i]));
                assert(g.b@[i].status == seeded_status(first_b, i).flipped());
            } else {
                assert(g.b@[i] == b_seeded[i]);
            }
        }
        lemma_build_graph_wf(
            g,
            records@,
            order_a@,
            order_b@,
            operation,
            subject_flag,
            clip_flag,
        );
    }
    Ok(g)
}

/// What holds of the finished graph, given what the construction passes left
/// of each list.
#[verifier::rlimit(100)]
proof fn lemma_build_graph_wf(
    g: Graph,
    records: Seq<IntersectionRecord>,
    order_a: Seq<usize>,
    order_b: Seq<usize>,
    operation: BooleanOperation,
    subject_flag: bool,
    clip_flag: bool,
)
    requires
        records.len() >= 2,
        records.len() <= usize::MAX as int,
        records.len() % 2 == 0,
        sorting_permutation(records.map_values(|r: IntersectionRecord| r.param_a), order_a),
        sorting_permutation(records.map_values(|r: IntersectionRecord| r.param_b), order_b),
        g.a@.len() == records.len(),
        g.b@.len() == records.len(),
        forall|i: int|
            0 <= i < records.len() ==> same_but_status_built(
                #[trigger] g.a@[i],
                records,
                order_a,
                order_b,
                true,
                i,
            ),
        forall|i: int|
            0 <= i < records.len() ==> same_but_status_built(
                #[trigger] g.b@[i],
                records,
                order_b,
                order_a,
                false,
                i,
            ),
        forall|i: int|
            0 <= i < records.len() ==> (#[trigger] g.a@[i]).status == seeded_status(
                effective_first(subject_flag, operation.inverts_subject()),
                i,
            ),
        forall|i: int|
            0 <= i < records.len() ==> (#[trigger] g.b@[i]).status == seeded_status(
                effective_first(clip_flag, operation.inverts_clip()),
                i,
            ),
    ensures
        g.wf(),
        g.k() == records.len(),
        forall|id: NodeId| g.id_wf(id) ==> !g.is_visited(id),
        g.a@[0].status == effective_first(subject_flag, operation.inverts_subject()),
        g.b@[0].status == effective_first(clip_flag, operation.inverts_clip()),
        exists|pa: Seq<usize>, pb: Seq<usize>| g.record_match(records, pa, pb),
{
    let k = records.len() as int;
    let keys_a = records.map_values(|r: IntersectionRecord| r.param_a);
    let keys_b = records.map_values(|r: IntersectionRecord| r.param_b);
    assert forall|i: int, j: int| 0 <= i <= j < k implies (#[trigger] g.a@[i]).parameter <= (
    #[trigger] g.a@[j]).parameter by {
        assert(keys_a[order_a[i] as int] <= keys_a[order_a[j] as int]);
    }
    assert forall|i: int, j: int| 0 <= i <= j < k implies (#[trigger] g.b@[i]).parameter <= (
    #[trigger] g.b@[j]).parameter by {
        assert(keys_b[order_b[i] as int] <= keys_b[order_b[j] as int]);
    }
    assert forall|i: int, j: int|
        0 <= i < k && 0 <= j < k && (#[trigger] g.a@[i]).cross == j implies (
    #[trigger] g.b@[j]).cross as int == i by {
        assert(order_b[j] == order_a[i]);
        let c = g.b@[j].cross as int;
        assert(order_a[c] == order_b[j]);
        if c < i {
            assert(order_a[c] != order_a[i]);
        }
        if i < c {
            assert(order_a[i] != order_a[c]);
        }
    }
    assert forall|i: int, j: int|
        0 <= i < k && 0 <= j < k && (#[trigger] g.b@[i]).cross == j implies (
    #[trigger] g.a@[j]).cross as int == i by {
        assert(order_a[j] == order_b[i]);
        let c = g.a@[j].cross as int;
        assert(order_b[c] == order_a[j]);
        if c < i {
            assert(order_b[c] != order_b[i]);
        }
        if i < c {
            assert(order_b[i] != order_b[c]);
        }
    }
    assert(list_alternating(g.a@));
    assert(list_alternating(g.b@));
    assert forall|id: NodeId| g.id_wf(id) implies !g.is_visited(id) by {
        let i = id.index as int;
        if id.subject {
            assert(same_but_status_built(g.a@[i], records, order_a, order_b, true, i));
        } else {
            assert(same_but_status_built(g.b@[i], records, order_b, order_a, false, i));
        }
    }
    assert(g.record_match(records, order_a, order_b)) by {
        assert forall|i: int| 0 <= i < k implies pb_cross(g, order_a, order_b, i) by {
            assert(order_b[g.a@[i].cross as int] == order_a[i]);
        }
    }
}

/// The cross entry of subject node `i` points at the position of its own
/// record in the clip order.
spec fn pb_cross(g: Graph, pa: Seq<usize>, pb: Seq<usize>, i: int) -> bool {
    pb[g.a@[i].cross as int] == pa[i]
}

/// `node_built` with the status field exempted (it changes during seeding).
pub open spec fn same_but_status_built(
    nd: Node,
    records: Seq<IntersectionRecord>,
    order_self: Seq<usize>,
    order_other: Seq<usize>,
    subject: bool,
    i: int,
) -> bool {
    &&& nd.subject == subject
    &&& nd.parameter == (if subject {
        records[order_self[i] as int].param_a
    } else {
        records[order_self[i] as int].param_b
    })
    &&& !nd.visited
    &&& nd.next as int == next_index(i, records.len() as int)
    &&& nd.prev as int == prev_index(i, records.len() as int)
    &&& nd.cross < records.len()
    &&& order_other[nd.cross as int] == order_self[i]
}

} // verus!
