use vstd::prelude::*;
use itertools::Itertools;

verus! {

/// `p` is a permutation of the positions `0 .. n`: in range, injective and
/// surjective.
pub open spec fn is_permutation(p: Seq<usize>, n: int) -> bool {
    &&& p.len() == n
    &&& forall|i: int| 0 <= i < n ==> (#[trigger] p[i]) < n
    &&& forall|i: int, j: int| 0 <= i < j < n ==> p[i] != p[j]
    &&& forall|v: usize| v < n ==> #[trigger] p.contains(v)
}

/// `r` enumerates the positions of `keys` in ascending key order.
pub open spec fn sorting_permutation(keys: Seq<u64>, r: Seq<usize>) -> bool {
    &&& is_permutation(r, keys.len() as int)
    &&& forall|i: int, j: int|
        0 <= i <= j < r.len() ==> #[trigger] keys[r[i] as int] <= #[trigger] keys[r[j] as int]
}

/// Relies on `itertools::Itertools::sorted_by`: it returns all items of the
/// iterator, reordered ascending by the comparator (a permutation of the
/// input). Each key is paired with its position and the pairs are compared by
/// key, so the returned positions enumerate `keys` in ascending key order.
#[verifier::external_body]
pub(crate) fn sort_positions(keys: &Vec<u64>) -> (r: Vec<usize>)
    ensures
        sorting_permutation(keys@, r@),
{
    let mut pairs: Vec<(u64, usize)> = Vec::new();
    for i in 0..keys.len() {
        pairs.push((keys[i], i));
    }
    pairs.into_iter().sorted_by(|p, q| p.0.cmp(&q.0)).map(|p| p.1).collect()
}

/// The position of `v` in `order`: the inverse lookup of a permutation entry.
pub(crate) fn position_of(order: &Vec<usize>, v: usize) -> (j: usize)
    requires
        order@.contains(v),
    ensures
        j < order@.len(),
        order@[j as int] == v,
{
    let n: usize = order.len();
    let mut j: usize = 0;
    loop
        invariant
            n == order@.len(),
            j <= n,
            exists|i: int| j <= i < order@.len() && order@[i] == v,
        decreases n - j,
    {
        if order[j] == v {
            return j;
        }
        proof {
            let i = choose|i: int| j <= i < order@.len() && order@[i] == v;
            assert(j + 1 <= i < order@.len() && order@[i] == v);
        }
        j = j + 1;
    }
}

} // verus!
