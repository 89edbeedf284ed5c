use vstd::prelude::*;
use crate::graph::{
    lemma_cross_involution, lemma_same_structure_trans, lemma_same_structure_wf,
    lemma_step_involution, same_but_visited, same_structure, Graph,
};
use crate::node::{Node, NodeId};
use crate::status::Status;
use vstd::set_lib::{lemma_int_range, lemma_len_subset, set_int_range};
use vstd::set::axiom_set_remove_len;

verus! {

/// The integer code of a node id: subject nodes first, then clip nodes.
pub open spec fn id_code(id: NodeId, k: int) -> int {
    if id.subject {
        id.index as int
    } else {
        k + id.index as int
    }
}

/// The node id a code names (inverse of `id_code`).
pub open spec fn code_id(c: int, k: int) -> NodeId {
    if c < k {
        NodeId { subject: true, index: c as usize }
    } else {
        NodeId { subject: false, index: (c - k) as usize }
    }
}

/// The codes of the nodes the traversal has not consumed yet.
pub open spec fn unvisited_codes(g: Graph) -> Set<int> {
    Set::new(|c: int| 0 <= c < 2 * g.k() && !g.is_visited(code_id(c, g.k())))
}

/// How many nodes are still unvisited: the measure every marking step
/// strictly decreases.
pub open spec fn unvisited_count(g: Graph) -> nat {
    unvisited_codes(g).len()
}

/// The visited set is closed under the step and cross moves. Each completed
/// walk leaves the flags in this state, which is what forces later walks onto
/// untouched cycles and makes full coverage provable.
pub open spec fn visited_closed(g: Graph) -> bool {
    forall|x: NodeId, y: NodeId|
        g.id_wf(x) && #[trigger] g.is_visited(x) && (y == g.step(x) || y == g.cross(x))
            ==> #[trigger] g.is_visited(y)
}

/// The nodes `g2` has consumed are exactly those `g0` had consumed plus the
/// walked path.
pub open spec fn marks_path(g0: Graph, g2: Graph, path: Seq<NodeId>) -> bool {
    forall|y: NodeId|
        g0.id_wf(y) ==> ((#[trigger] g2.is_visited(y)) <==> g0.is_visited(y) || path.contains(y))
}

/// The step move pairs each node with an adjacent node of the opposite
/// status on the same list.
pub open spec fn step_involutive(g: Graph) -> bool {
    forall|x: NodeId|
        g.id_wf(x) ==> g.id_wf(#[trigger] g.step(x)) && g.step(x).subject == x.subject && g.step(
            x,
        ) != x && g.step(g.step(x)) == x
}

/// The cross move pairs each node with its counterpart on the other list.
pub open spec fn cross_involutive(g: Graph) -> bool {
    forall|x: NodeId|
        g.id_wf(x) ==> g.id_wf(#[trigger] g.cross(x)) && g.cross(x).subject == !x.subject
            && g.cross(g.cross(x)) == x
}

/// A well-formed graph's moves are involutions.
pub proof fn lemma_involutive(g: Graph)
    requires
        g.wf(),
    ensures
        step_involutive(g),
        cross_involutive(g),
{
    assert forall|x: NodeId| g.id_wf(x) implies g.id_wf(#[trigger] g.step(x)) && g.step(
        x,
    ).subject == x.subject && g.step(x) != x && g.step(g.step(x)) == x by {
        lemma_step_involution(g, x);
    }
    assert forall|x: NodeId| g.id_wf(x) implies g.id_wf(#[trigger] g.cross(x)) && g.cross(
        x,
    ).subject == !x.subject && g.cross(g.cross(x)) == x by {
        lemma_cross_involution(g, x);
    }
}

/// Every node of the graph is addressed by exactly one code below `2 * k`.
proof fn lemma_unvisited_finite(g: Graph)
    requires
        g.k() >= 0,
    ensures
        unvisited_codes(g).finite(),
        unvisited_codes(g).len() <= 2 * g.k(),
{
    let s = unvisited_codes(g);
    let r = set_int_range(0, 2 * g.k());
    lemma_int_range(0, 2 * g.k());
    assert(s.subset_of(r));
    lemma_len_subset(s, r);
}

/// Marking one unvisited node removes exactly its code from the unvisited
/// set.
proof fn lemma_mark_removes(g1: Graph, g2: Graph, id: NodeId)
    requires
        g1.b@.len() == g1.a@.len(),
        g1.k() <= usize::MAX as int,
        g2.k() == g1.k(),
        g1.id_wf(id),
        !g1.is_visited(id),
        g2.is_visited(id),
        forall|x: NodeId| g1.id_wf(x) && x != id ==> g2.is_visited(x) == g1.is_visited(x),
    ensures
        unvisited_codes(g2) == unvisited_codes(g1).remove(id_code(id, g1.k())),
        unvisited_count(g2) + 1 == unvisited_count(g1),
{
    let k = g1.k();
    let c = id_code(id, k);
    assert(code_id(c, k) == id);
    assert forall|d: int| unvisited_codes(g2).contains(d) implies unvisited_codes(g1).remove(
        c,
    ).contains(d) by {
        assert(code_id(d, k) != id || d == c);
    }
    assert forall|d: int| unvisited_codes(g1).remove(c).contains(d) implies unvisited_codes(
        g2,
    ).contains(d) by {
        assert(code_id(d, k) != id);
    }
    assert(unvisited_codes(g2) =~= unvisited_codes(g1).remove(c));
    lemma_unvisited_finite(g1);
    assert(unvisited_codes(g1).contains(c));
    axiom_set_remove_len(unvisited_codes(g1), c);
}

/// Read the node `id` names.
pub fn node_of(g: &Graph, id: NodeId) -> (nd: Node)
    requires
        g.b@.len() == g.a@.len(),
        g.id_wf(id),
    ensures
        nd == g.node_at(id),
{
    if id.subject {
        g.a[id.index]
    } else {
        g.b[id.index]
    }
}

/// The status-directed step from `id`: `Enter` follows `next`, `Exit`
/// follows `prev`.
pub fn step_of(g: &Graph, id: NodeId) -> (r: NodeId)
    requires
        g.b@.len() == g.a@.len(),
        g.id_wf(id),
    ensures
        r == g.step(id),
{
    let nd = node_of(g, id);
    NodeId {
        subject: id.subject,
        index: if nd.status == Status::Enter {
            nd.next
        } else {
            nd.prev
        },
    }
}

/// The cross-link jump from `id` to the other list.
pub fn cross_of(g: &Graph, id: NodeId) -> (r: NodeId)
    requires
        g.b@.len() == g.a@.len(),
        g.id_wf(id),
    ensures
        r == g.cross(id),
{
    let nd = node_of(g, id);
    NodeId { subject: !id.subject, index: nd.cross }
}

/// Mark the (unvisited) node `id` names as visited; nothing else changes.
pub fn mark_visited(g: &mut Graph, id: NodeId)
    requires
        old(g).b@.len() == old(g).a@.len(),
        old(g).id_wf(id),
        !old(g).is_visited(id),
    ensures
        final (g).b@.len() == final (g).a@.len(),
        final (g).k() == old(g).k(),
        same_structure(*old(g), *final (g)),
        final (g).is_visited(id),
        forall|x: NodeId|
            old(g).id_wf(x) && x != id ==> final (g).is_visited(x) == old(g).is_visited(x),
        unvisited_codes(*final (g)) == unvisited_codes(*old(g)).remove(
            id_code(id, old(g).k()),
        ),
        unvisited_count(*final (g)) + 1 == unvisited_count(*old(g)),
{
    let n = g.a.len();
    proof {
        assert(n as int == old(g).k());
        assert(old(g).k() <= usize::MAX as int);
    }
    let i = id.index;
    if id.subject {
        let mut nd = g.a[i];
        nd.visited = true;
        g.a[i] = nd;
    } else {
        let mut nd = g.b[i];
        nd.visited = true;
        g.b[i] = nd;
    }
    proof {
        assert(same_structure(*old(g), *g));
        assert forall|x: NodeId| old(g).id_wf(x) && x != id implies g.is_visited(x) == old(
            g,
        ).is_visited(x) by {
            if x.subject == id.subject {
                assert(x.index != id.index);
            }
        }
        lemma_mark_removes(*old(g), *g, id);
    }
}

/// The first unvisited node of the subject list, scanning from its first
/// element along `next` links; `None` once the whole subject list is
/// consumed.
pub fn first_unvisited_subject(g: &Graph) -> (r: Option<NodeId>)
    requires
        g.wf(),
    ensures
        match r {
            Some(id) => id.subject && g.id_wf(id) && !g.is_visited(id) && (forall|i: int|
                0 <= i < id.index as int ==> (#[trigger] g.a@[i]).visited),
            None => forall|i: int| 0 <= i < g.k() ==> (#[trigger] g.a@[i]).visited,
        },
{
    let n = g.a.len();
    let mut i: usize = 0;
    while i < n
        invariant
            g.wf(),
            n == g.a@.len(),
            i <= n,
            forall|t: int| 0 <= t < i ==> (#[trigger] g.a@[t]).visited,
        decreases n - i,
    {
        if !g.a[i].visited {
            return Some(NodeId { subject: true, index: i });
        }
        i = i + 1;
    }
    None
}

/// The path ids chain as the walk produces them: odd positions are the step
/// from their predecessor, later even positions the cross jump from theirs.
pub open spec fn path_chained(g: Graph, path: Seq<NodeId>) -> bool {
    &&& forall|t: int| 0 <= t < path.len() ==> g.id_wf(#[trigger] path[t])
    &&& forall|t: int| 0 <= t < path.len() && t % 2 == 1 ==> #[trigger] path[t] == g.step(path[t - 1])
    &&& forall|t: int| 0 < t < path.len() && t % 2 == 0 ==> #[trigger] path[t] == g.cross(path[t - 1])
}

/// Membership in a path extended by one step pair.
proof fn lemma_push_two_contains(s: Seq<NodeId>, a: NodeId, b: NodeId)
    ensures
        forall|x: NodeId|
            #[trigger] s.push(a).push(b).contains(x) <==> s.contains(x) || x == a || x == b,
{
    let s2 = s.push(a).push(b);
    assert forall|x: NodeId| #[trigger] s2.contains(x) implies s.contains(x) || x == a || x == b by {
        let t = choose|t: int| 0 <= t < s2.len() && s2[t] == x;
        if t < s.len() {
            assert(s[t] == x);
        }
    }
    assert forall|x: NodeId| s.contains(x) || x == a || x == b implies #[trigger] s2.contains(
        x,
    ) by {
        if s.contains(x) {
            let t = choose|t: int| 0 <= t < s.len() && s[t] == x;
            assert(s2[t] == x);
        } else if x == a {
            assert(s2[s.len() as int] == x);
        } else {
            assert(s2[s.len() as int + 1] == x);
        }
    }
}

/// A path stays duplicate-free when extended by two fresh, distinct ids.
proof fn lemma_push_two_no_dup(s: Seq<NodeId>, a: NodeId, b: NodeId)
    requires
        s.no_duplicates(),
        !s.contains(a),
        !s.contains(b),
        a != b,
    ensures
        s.push(a).push(b).no_duplicates(),
{
    let s2 = s.push(a).push(b);
    assert forall|i: int, j: int| 0 <= i < j < s2.len() implies s2[i] != s2[j] by {
        if j < s.len() {
            assert(s[i] != s[j]);
        } else if j == s.len() {
            if s2[i] == s2[j] {
                assert(s.contains(a));
            }
        } else {
            if i < s.len() && s2[i] == s2[j] {
                assert(s.contains(b));
            }
        }
    }
}

/// A path stays chained when extended by the walk's next step pair.
proof fn lemma_push_two_chained(g0: Graph, s: Seq<NodeId>, a: NodeId, b: NodeId)
    requires
        path_chained(g0, s),
        s.len() % 2 == 0,
        g0.id_wf(a),
        g0.id_wf(b),
        b == g0.step(a),
        s.len() > 0 ==> a == g0.cross(s.last()),
    ensures
        path_chained(g0, s.push(a).push(b)),
{
    let s2 = s.push(a).push(b);
    assert forall|t: int| 0 <= t < s2.len() implies g0.id_wf(#[trigger] s2[t]) by {
        if t < s.len() {
            assert(g0.id_wf(s[t]));
        }
    }
    assert forall|t: int| 0 <= t < s2.len() && t % 2 == 1 implies #[trigger] s2[t] == g0.step(
        s2[t - 1],
    ) by {
        if t < s.len() {
            assert(s[t] == g0.step(s[t - 1]));
        }
    }
    assert forall|t: int| 0 < t < s2.len() && t % 2 == 0 implies #[trigger] s2[t] == g0.cross(
        s2[t - 1],
    ) by {
        if t < s.len() {
            assert(s[t] == g0.cross(s[t - 1]));
        } else {
            assert(t == s.len());
            assert(s2[t] == a && s2[t - 1] == s.last());
        }
    }
}

/// A step target is always fresh: the visited set at walk start is closed,
/// and everything this walk marked chains back to the walk's path.
proof fn lemma_step_fresh(g0: Graph, path: Seq<NodeId>, current: NodeId)
    requires
        step_involutive(g0),
        visited_closed(g0),
        path_chained(g0, path),
        path.len() % 2 == 0,
        path.no_duplicates(),
        forall|t: int| 0 <= t < path.len() ==> !g0.is_visited(#[trigger] path[t]),
        g0.id_wf(current),
        !g0.is_visited(current),
        !path.contains(current),
    ensures
        g0.id_wf(g0.step(current)),
        g0.step(current) != current,
        !g0.is_visited(g0.step(current)),
        !path.contains(g0.step(current)),
{
    let nxt = g0.step(current);
    if g0.is_visited(nxt) {
        assert(g0.is_visited(g0.step(nxt)));
        assert(g0.step(nxt) == current);
        assert(false);
    }
    if path.contains(nxt) {
        let t = choose|t: int| 0 <= t < path.len() && path[t] == nxt;
        if t % 2 == 1 {
            assert(path[t] == g0.step(path[t - 1]));
            assert(g0.step(path[t]) == path[t - 1]);
            assert(current == path[t - 1]);
            assert(path.contains(path[t - 1]));
            assert(false);
        } else {
            assert(t + 1 < path.len());
            assert(path[t + 1] == g0.step(path[t]));
            assert(path[t + 1] == current);
            assert(path.contains(path[t + 1]));
            assert(false);
        }
    }
}

/// When the walk runs into a consumed node, that node is its own start.
#[verifier::rlimit(100)]
#[verifier::spinoff_prover]
proof fn lemma_walk_exit_start(g0: Graph, path: Seq<NodeId>, current: NodeId)
    requires
        cross_involutive(g0),
        path_chained(g0, path),
        path.len() > 0,
        path.len() % 2 == 0,
        path.no_duplicates(),
        g0.id_wf(current),
        current == g0.cross(path.last()),
        path.contains(current),
    ensures
        current == path[0],
{
    let m = choose|m: int| 0 <= m < path.len() && path[m] == current;
    assert(g0.cross(g0.cross(path.last())) == path.last());
    assert(g0.cross(current) == path.last());
    if m == path.len() - 1 {
        assert(g0.cross(path.last()).subject != path.last().subject);
        assert(false);
    } else if m % 2 == 1 {
        assert(path[m + 1] == g0.cross(path[m]));
        assert(path[m + 1] == path.last());
        assert(m + 1 == path.len() - 1);
        assert((path.len() - 1) % 2 == 1);
        assert(false);
    } else if m > 0 {
        assert(path[m] == g0.cross(path[m - 1]));
        assert(g0.cross(g0.cross(path[m - 1])) == path[m - 1]);
        assert(g0.cross(current) == path[m - 1]);
        assert(path[m - 1] == path.last());
        assert(m - 1 == path.len() - 1);
        assert(false);
    }
    assert(current == path[0]);
}

/// The step and cross moves from one walked node land on walked nodes.
#[verifier::rlimit(100)]
#[verifier::spinoff_prover]
proof fn lemma_walk_closed_at(g0: Graph, path: Seq<NodeId>, t: int)
    requires
        step_involutive(g0),
        cross_involutive(g0),
        path_chained(g0, path),
        path.len() > 0,
        path.len() % 2 == 0,
        0 <= t < path.len(),
        path[0] == g0.cross(path.last()),
    ensures
        path.contains(g0.step(path[t])),
        path.contains(g0.cross(path[t])),
{
    let x = path[t];
    if t % 2 == 0 {
        assert(path[t + 1] == g0.step(path[t]));
        assert(path.contains(path[t + 1]));
        if t > 0 {
            assert(path[t] == g0.cross(path[t - 1]));
            assert(g0.cross(g0.cross(path[t - 1])) == path[t - 1]);
            assert(g0.cross(x) == path[t - 1]);
            assert(path.contains(path[t - 1]));
        } else {
            assert(g0.cross(g0.cross(path.last())) == path.last());
            assert(g0.cross(x) == path.last());
            assert(path.contains(path.last()));
        }
    } else {
        assert(path[t] == g0.step(path[t - 1]));
        assert(g0.step(g0.step(path[t - 1])) == path[t - 1]);
        assert(g0.step(x) == path[t - 1]);
        assert(path.contains(path[t - 1]));
        if t < path.len() - 1 {
            assert(path[t + 1] == g0.cross(path[t]));
            assert(path.contains(path[t + 1]));
        } else {
            assert(g0.cross(x) == path[0]);
            assert(path.contains(path[0]));
        }
    }
}

/// After a walk that closed back on its start, the visited set is again
/// closed under both moves.
#[verifier::rlimit(100)]
#[verifier::spinoff_prover]
proof fn lemma_visited_closed_after(g0: Graph, g2: Graph, path: Seq<NodeId>)
    requires
        step_involutive(g0),
        cross_involutive(g0),
        visited_closed(g0),
        path_chained(g0, path),
        path.len() > 0,
        path.len() % 2 == 0,
        path[0] == g0.cross(path.last()),
        g0.b@.len() == g0.a@.len(),
        g2.a@.len() == g0.a@.len(),
        g2.b@.len() == g0.b@.len(),
        same_structure(g0, g2),
        marks_path(g0, g2, path),
    ensures
        visited_closed(g2),
{
    assert forall|x: NodeId, y: NodeId|
        g2.id_wf(x) && #[trigger] g2.is_visited(x) && (y == g2.step(x) || y == g2.cross(x))
            implies #[trigger] g2.is_visited(y) by {
        lemma_visited_closed_one(g0, g2, path, x);
    }
}

/// One instance of the closure argument: the moves from a visited node land
/// on visited nodes.
#[verifier::rlimit(100)]
#[verifier::spinoff_prover]
proof fn lemma_visited_closed_one(g0: Graph, g2: Graph, path: Seq<NodeId>, x: NodeId)
    requires
        step_involutive(g0),
        cross_involutive(g0),
        visited_closed(g0),
        path_chained(g0, path),
        path.len() > 0,
        path.len() % 2 == 0,
        path[0] == g0.cross(path.last()),
        g0.b@.len() == g0.a@.len(),
        g2.a@.len() == g0.a@.len(),
        g2.b@.len() == g0.b@.len(),
        same_structure(g0, g2),
        marks_path(g0, g2, path),
        g2.id_wf(x),
        g2.is_visited(x),
    ensures
        g2.is_visited(g2.step(x)),
        g2.is_visited(g2.cross(x)),
{
    if x.subject {
        assert(same_but_visited(g2.a@[x.index as int], g0.a@[x.index as int]));
    } else {
        assert(same_but_visited(g2.b@[x.index as int], g0.b@[x.index as int]));
    }
    assert(g2.step(x) == g0.step(x));
    assert(g2.cross(x) == g0.cross(x));
    assert(g0.id_wf(g0.step(x)) && g0.id_wf(g0.cross(x)));
    assert(g0.id_wf(x));
    if g0.is_visited(x) {
        assert(g0.is_visited(g0.step(x)));
        assert(g0.is_visited(g0.cross(x)));
        assert(g2.is_visited(g0.step(x)));
        assert(g2.is_visited(g0.cross(x)));
    } else {
        assert(g2.is_visited(x));
        assert(path.contains(x));
        let t = choose|t: int| 0 <= t < path.len() && path[t] == x;
        lemma_walk_closed_at(g0, path, t);
        assert(path.contains(g0.step(x)));
        assert(path.contains(g0.cross(x)));
        assert(g2.is_visited(g0.step(x)));
        assert(g2.is_visited(g0.cross(x)));
    }
}

/// One closed walk: starting from an unvisited node, repeatedly mark the
/// current node, step by status, mark the step target, and jump across the
/// cross link, until the walk returns to a consumed node (always its own
/// start). The nodes come back in visitation order, in step pairs.
#[verifier::rlimit(100)]
pub fn walk(g: &mut Graph, start: NodeId) -> (path: Vec<NodeId>)
    requires
        old(g).wf(),
        old(g).id_wf(start),
        !old(g).is_visited(start),
        visited_closed(*old(g)),
    ensures
        final (g).wf(),
        final (g).k() == old(g).k(),
        same_structure(*old(g), *final (g)),
        visited_closed(*final (g)),
        path@.len() >= 2,
        path@.len() % 2 == 0,
        path@[0] == start,
        path@[0] == old(g).cross(path@.last()),
        path_chained(*old(g), path@),
        path@.no_duplicates(),
        forall|t: int| 0 <= t < path@.len() ==> !old(g).is_visited(#[trigger] path@[t]),
        marks_path(*old(g), *final (g), path@),
        unvisited_count(*final (g)) < unvisited_count(*old(g)),
{
    let ghost g0 = *old(g);
    proof {
        lemma_involutive(g0);
    }
    let mut path: Vec<NodeId> = Vec::new();
    let mut current = start;
    loop
        invariant
            g.b@.len() == g.a@.len(),
            g.k() == g0.k(),
            g0.b@.len() == g0.a@.len(),
            g0.k() <= usize::MAX as int,
            same_structure(g0, *g),
            step_involutive(g0),
            cross_involutive(g0),
            g0.id_wf(start),
            !g0.is_visited(start),
            visited_closed(g0),
            g0.id_wf(current),
            path@.len() % 2 == 0,
            path@.len() == 0 ==> current == start,
            path@.len() > 0 ==> path@[0] == start && current == g0.cross(path@.last()),
            path_chained(g0, path@),
            path@.no_duplicates(),
            forall|t: int| 0 <= t < path@.len() ==> !g0.is_visited(#[trigger] path@[t]),
            !g0.is_visited(current),
            marks_path(g0, *g, path@),
            unvisited_count(*g) + path@.len() == unvisited_count(g0),
        ensures
            g.b@.len() == g.a@.len(),
            g.k() == g0.k(),
            same_structure(g0, *g),
            g0.id_wf(current),
            !g0.is_visited(current),
            path@.len() > 0,
            path@.len() % 2 == 0,
            path@[0] == start,
            current == g0.cross(path@.last()),
            path_chained(g0, path@),
            path@.no_duplicates(),
            forall|t: int| 0 <= t < path@.len() ==> !g0.is_visited(#[trigger] path@[t]),
            marks_path(g0, *g, path@),
            path@.contains(current),
            unvisited_count(*g) < unvisited_count(g0),
        decreases unvisited_count(*g),
    {
        let nd = node_of(g, current);
        if nd.visited {
            proof {
                assert(g.is_visited(current));
                assert(path@.contains(current));
            }
            break ;
        }
        proof {
            assert(!g.is_visited(current));
            assert(!path@.contains(current));
        }
        let ghost path0 = path@;
        proof {
            lemma_step_fresh(g0, path0, current);
        }
        let ghost pre = *g;
        mark_visited(g, current);
        let ghost mid = *g;
        proof {
            lemma_same_structure_trans(g0, pre, mid);
        }
        path.push(current);
        let nxt = step_of(g, current);
        proof {
            assert(g.step(current) == g0.step(current));
            assert(g0.id_wf(g0.step(current)));
        }
        mark_visited(g, nxt);
        path.push(nxt);
        let prev_current = current;
        current = cross_of(g, nxt);
        proof {
            lemma_same_structure_trans(g0, mid, *g);
            assert(g.cross(nxt) == g0.cross(nxt));
            assert(current == g0.cross(nxt));
            assert(g0.cross(g0.cross(nxt)) == nxt);
            if g0.is_visited(current) {
                assert(g0.is_visited(g0.cross(current)));
                assert(g0.cross(current) == nxt);
                assert(false);
            }
            assert(path@ == path0.push(prev_current).push(nxt));
            lemma_push_two_contains(path0, prev_current, nxt);
            lemma_push_two_no_dup(path0, prev_current, nxt);
            lemma_push_two_chained(g0, path0, prev_current, nxt);
            assert(path@.last() == nxt);
            assert(path@[0] == start);
            assert forall|x: NodeId| g0.id_wf(x) implies ((#[trigger] g.is_visited(x))
                <==> g0.is_visited(x) || path@.contains(x)) by {
                assert(pre.is_visited(x) <==> g0.is_visited(x) || path0.contains(x));
                if x == prev_current || x == nxt {
                    assert(g.is_visited(x));
                    assert(path@.contains(x));
                } else {
                    assert(mid.is_visited(x) == pre.is_visited(x));
                    assert(g.is_visited(x) == mid.is_visited(x));
                }
            }
        }
    }
    proof {
        lemma_same_structure_wf(g0, *g);
        lemma_walk_exit_start(g0, path@, current);
        assert(current == start);
        lemma_visited_closed_after(g0, *g, path@);
    }
    path
}

/// Chaining is a structural property: it transfers between graphs that agree
/// up to visitation flags.
proof fn lemma_path_chained_transfer(g1: Graph, g2: Graph, path: Seq<NodeId>)
    requires
        g1.b@.len() == g1.a@.len(),
        g2.a@.len() == g1.a@.len(),
        g2.b@.len() == g1.b@.len(),
        same_structure(g1, g2),
        path_chained(g2, path),
    ensures
        path_chained(g1, path),
{
    assert forall|t: int| 0 <= t < path.len() implies g1.id_wf(#[trigger] path[t]) by {
        assert(g2.id_wf(path[t]));
    }
    assert forall|t: int| 0 <= t < path.len() && t % 2 == 1 implies #[trigger] path[t] == g1.step(
        path[t - 1],
    ) by {
        let x = path[t - 1];
        if x.subject {
            assert(same_but_visited(g2.a@[x.index as int], g1.a@[x.index as int]));
        } else {
            assert(same_but_visited(g2.b@[x.index as int], g1.b@[x.index as int]));
        }
        assert(g2.step(x) == g1.step(x));
    }
    assert forall|t: int| 0 < t < path.len() && t % 2 == 0 implies #[trigger] path[t] == g1.cross(
        path[t - 1],
    ) by {
        let x = path[t - 1];
        if x.subject {
            assert(same_but_visited(g2.a@[x.index as int], g1.a@[x.index as int]));
        } else {
            assert(same_but_visited(g2.b@[x.index as int], g1.b@[x.index as int]));
        }
        assert(g2.cross(x) == g1.cross(x));
    }
}

/// `x` stands somewhere in one of the paths.
pub open spec fn in_paths(paths: Seq<Vec<NodeId>>, x: NodeId) -> bool {
    exists|p: int| 0 <= p < paths.len() && (#[trigger] paths[p])@.contains(x)
}

/// The consumed nodes are exactly those the paths hold.
pub open spec fn marks_paths(g: Graph, paths: Seq<Vec<NodeId>>) -> bool {
    forall|y: NodeId| g.id_wf(y) ==> ((#[trigger] g.is_visited(y)) <==> in_paths(paths, y))
}

/// Every path is one closed walk: chained, of even length at least two, and
/// free of repeats.
pub open spec fn paths_wf(g: Graph, paths: Seq<Vec<NodeId>>) -> bool {
    forall|p: int|
        0 <= p < paths.len() ==> path_chained(g, (#[trigger] paths[p])@) && paths[p]@.len() >= 2
            && paths[p]@.len() % 2 == 0 && paths[p]@.no_duplicates()
}

/// No node stands in two places across all the paths together.
pub open spec fn paths_disjoint(paths: Seq<Vec<NodeId>>) -> bool {
    forall|p1: int, t1: int, p2: int, t2: int|
        0 <= p1 < paths.len() && 0 <= t1 < paths[p1]@.len() && 0 <= p2 < paths.len() && 0 <= t2
            < paths[p2]@.len() && (p1 != p2 || (p1 == p2 && t1 != t2)) ==> (#[trigger] paths[p1]@[t1])
            != (#[trigger] paths[p2]@[t2])
}

/// Walk shape (chaining and closure) is structural: it transfers between
/// graphs that agree up to visitation flags.
pub proof fn lemma_paths_structural_transfer(g1: Graph, g2: Graph, paths: Seq<Vec<NodeId>>)
    requires
        g1.b@.len() == g1.a@.len(),
        g2.a@.len() == g1.a@.len(),
        g2.b@.len() == g1.b@.len(),
        same_structure(g1, g2),
        paths_wf(g2, paths),
        paths_closed(g2, paths),
    ensures
        paths_wf(g1, paths),
        paths_closed(g1, paths),
{
    assert forall|j: int| 0 <= j < paths.len() implies path_chained(
        g1,
        (#[trigger] paths[j])@,
    ) && paths[j]@.len() >= 2 && paths[j]@.len() % 2 == 0 && paths[j]@.no_duplicates() by {
        lemma_path_chained_transfer(g1, g2, paths[j]@);
    }
    assert forall|j: int| 0 <= j < paths.len() implies (#[trigger] paths[j])@.len() > 0
        && paths[j]@[0] == g1.cross(paths[j]@.last()) by {
        let lastid = paths[j]@.last();
        assert(g2.id_wf(lastid));
        if lastid.subject {
            assert(same_but_visited(g2.a@[lastid.index as int], g1.a@[lastid.index as int]));
        } else {
            assert(same_but_visited(g2.b@[lastid.index as int], g1.b@[lastid.index as int]));
        }
        assert(g2.cross(lastid) == g1.cross(lastid));
    }
}

/// `x` stands in one of the first `j` paths.
pub open spec fn in_path_prefix(paths: Seq<Vec<NodeId>>, j: int, x: NodeId) -> bool {
    exists|p: int| 0 <= p < j && (#[trigger] paths[p])@.contains(x)
}

/// Every walk is closed: the cross jump off its last node returns to its
/// first node.
pub open spec fn paths_closed(g: Graph, paths: Seq<Vec<NodeId>>) -> bool {
    forall|j: int|
        0 <= j < paths.len() ==> (#[trigger] paths[j])@.len() > 0 && paths[j]@[0] == g.cross(
            paths[j]@.last(),
        )
}

/// Each walk starts on the subject list, at the least index the earlier
/// walks left unconsumed (the engine's scan order).
pub open spec fn paths_start_order(paths: Seq<Vec<NodeId>>) -> bool {
    forall|j: int|
        0 <= j < paths.len() ==> (#[trigger] paths[j])@.len() > 0 && paths[j]@[0].subject && (
        forall|i: usize|
            i < paths[j]@[0].index ==> #[trigger] in_path_prefix(
                paths,
                j,
                NodeId { subject: true, index: i },
            ))
}

/// The traversal engine: pick the first unvisited subject node, produce one
/// closed walk from it, and repeat until every node on the subject list is
/// consumed. Closure of the visited set under both moves then forces every
/// clip node to be consumed as well, so the walks cover the whole graph, each
/// node exactly once.
#[verifier::rlimit(100)]
pub fn traverse(g: &mut Graph) -> (paths: Vec<Vec<NodeId>>)
    requires
        old(g).wf(),
        forall|x: NodeId| old(g).id_wf(x) ==> !old(g).is_visited(x),
    ensures
        final (g).wf(),
        final (g).k() == old(g).k(),
        same_structure(*old(g), *final (g)),
        forall|x: NodeId| final (g).id_wf(x) ==> final (g).is_visited(x),
        paths_wf(*old(g), paths@),
        paths_closed(*old(g), paths@),
        paths_start_order(paths@),
        paths_disjoint(paths@),
        marks_paths(*final (g), paths@),
        forall|x: NodeId| old(g).id_wf(x) ==> in_paths(paths@, x),
{
    let ghost g0 = *old(g);
    let mut paths: Vec<Vec<NodeId>> = Vec::new();
    proof {
        assert forall|y: NodeId| g.id_wf(y) implies ((#[trigger] g.is_visited(y)) <==> in_paths(
            paths@,
            y,
        )) by {}
    }
    loop
        invariant
            g.wf(),
            g.k() == g0.k(),
            g0.wf(),
            same_structure(g0, *g),
            visited_closed(*g),
            forall|x: NodeId| g0.id_wf(x) ==> !g0.is_visited(x),
            marks_paths(*g, paths@),
            paths_wf(g0, paths@),
            paths_closed(g0, paths@),
            paths_start_order(paths@),
            paths_disjoint(paths@),
        ensures
            g.wf(),
            g.k() == g0.k(),
            same_structure(g0, *g),
            marks_paths(*g, paths@),
            paths_wf(g0, paths@),
            paths_closed(g0, paths@),
            paths_start_order(paths@),
            paths_disjoint(paths@),
            forall|x: NodeId| g.id_wf(x) ==> g.is_visited(x),
        decreases unvisited_count(*g),
    {
        let r = first_unvisited_subject(g);
        match r {
            Some(start) => {
                let ghost pre = *g;
                let ghost paths0 = paths@;
                let path = walk(g, start);
                proof {
                    lemma_same_structure_trans(g0, pre, *g);
                    lemma_path_chained_transfer(g0, pre, path@);
                }
                paths.push(path);
                proof {
                    assert(paths@ == paths0.push(path));
                    assert forall|y: NodeId| g.id_wf(y) implies ((#[trigger] g.is_visited(y))
                        <==> in_paths(paths@, y)) by {
                        assert(pre.is_visited(y) <==> in_paths(paths0, y));
                        if in_paths(paths0, y) {
                            let p = choose|p: int|
                                0 <= p < paths0.len() && (#[trigger] paths0[p])@.contains(y);
                            assert(paths@[p]@.contains(y));
                        }
                        if path@.contains(y) {
                            assert(paths@[paths0.len() as int]@.contains(y));
                        }
                        if in_paths(paths@, y) {
                            let p = choose|p: int|
                                0 <= p < paths@.len() && (#[trigger] paths@[p])@.contains(y);
                            if p < paths0.len() {
                                assert(paths0[p]@.contains(y));
                            } else {
                                assert(path@.contains(y));
                            }
                        }
                    }
                    assert forall|p: int| 0 <= p < paths@.len() implies path_chained(
                        g0,
                        (#[trigger] paths@[p])@,
                    ) && paths@[p]@.len() >= 2 && paths@[p]@.len() % 2 == 0
                        && paths@[p]@.no_duplicates() by {
                        if p < paths0.len() {
                            assert(paths0[p] == paths@[p]);
                        }
                    }
                    assert forall|p: int| 0 <= p < paths@.len() implies (
                    #[trigger] paths@[p])@.len() > 0 && paths@[p]@[0] == g0.cross(
                        paths@[p]@.last(),
                    ) by {
                        if p < paths0.len() {
                            assert(paths0[p] == paths@[p]);
                        } else {
                            let lastid = path@.last();
                            assert(g0.id_wf(lastid));
                            if lastid.subject {
                                assert(same_but_visited(
                                    pre.a@[lastid.index as int],
                                    g0.a@[lastid.index as int],
                                ));
                            } else {
                                assert(same_but_visited(
                                    pre.b@[lastid.index as int],
                                    g0.b@[lastid.index as int],
                                ));
                            }
                            assert(pre.cross(lastid) == g0.cross(lastid));
                        }
                    }
                    assert forall|j: int| 0 <= j < paths@.len() implies (
                    #[trigger] paths@[j])@.len() > 0 && paths@[j]@[0].subject && (forall|i: usize|
                        i < paths@[j]@[0].index ==> #[trigger] in_path_prefix(
                            paths@,
                            j,
                            NodeId { subject: true, index: i },
                        )) by {
                        if j < paths0.len() {
                            assert(paths0[j] == paths@[j]);
                            assert forall|i: usize|
                                i < paths@[j]@[0].index implies in_path_prefix(
                                paths@,
                                j,
                                NodeId { subject: true, index: i },
                            ) by {
                                let x = NodeId { subject: true, index: i };
                                assert(in_path_prefix(paths0, j, x));
                                let p = choose|p: int|
                                    0 <= p < j && (#[trigger] paths0[p])@.contains(x);
                                assert(paths@[p]@.contains(x));
                            }
                        } else {
                            assert(paths@[j]@[0] == start);
                            assert forall|i: usize|
                                i < start.index implies in_path_prefix(
                                paths@,
                                j,
                                NodeId { subject: true, index: i },
                            ) by {
                                let x = NodeId { subject: true, index: i };
                                assert(pre.a@[i as int].visited);
                                assert(pre.node_at(x) == pre.a@[i as int]);
                                assert(pre.is_visited(x));
                                assert(in_paths(paths0, x));
                                let p = choose|p: int|
                                    0 <= p < paths0.len() && (#[trigger] paths0[p])@.contains(x);
                                assert(paths@[p]@.contains(x));
                            }
                        }
                    }
                    assert forall|p1: int, t1: int, p2: int, t2: int|
                        0 <= p1 < paths@.len() && 0 <= t1 < paths@[p1]@.len() && 0 <= p2
                            < paths@.len() && 0 <= t2 < paths@[p2]@.len() && (p1 != p2 || (p1 == p2
                            && t1 != t2)) implies (#[trigger] paths@[p1]@[t1]) != (
                    #[trigger] paths@[p2]@[t2]) by {
                        let n0 = paths0.len() as int;
                        if p1 < n0 && p2 < n0 {
                            assert(paths0[p1]@[t1] != paths0[p2]@[t2]);
                        } else if p1 < n0 && p2 == n0 {
                            assert(paths0[p1]@.contains(paths0[p1]@[t1]));
                            assert(in_paths(paths0, paths@[p1]@[t1]));
                            assert(pre.is_visited(paths@[p1]@[t1]));
                            assert(!pre.is_visited(path@[t2]));
                        } else if p1 == n0 && p2 < n0 {
                            assert(paths0[p2]@.contains(paths0[p2]@[t2]));
                            assert(in_paths(paths0, paths@[p2]@[t2]));
                            assert(pre.is_visited(paths@[p2]@[t2]));
                            assert(!pre.is_visited(path@[t1]));
                        } else {
                            assert(path@.no_duplicates());
                        }
                    }
                }
            },
            None => {
                proof {
                    assert forall|x: NodeId| g.id_wf(x) implies g.is_visited(x) by {
                        if x.subject {
                            assert(g.a@[x.index as int].visited);
                        } else {
                            lemma_cross_involution(*g, x);
                            let y = g.cross(x);
                            assert(y.subject);
                            assert(g.a@[y.index as int].visited);
                            assert(g.is_visited(y));
                            assert(x == g.cross(y));
                        }
                    }
                }
                break ;
            },
        }
    }
    proof {
        assert forall|x: NodeId| g0.id_wf(x) implies in_paths(paths@, x) by {
            assert(g.is_visited(x));
        }
    }
    paths
}

} // verus!
