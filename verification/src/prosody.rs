//! Neighbour selection for k-nearest prosody graphs: each node is joined to the
//! nodes nearest to it, ties going to the lower node index.

use vstd::prelude::*;
use crate::phrase::{stable_order, stable_order_of, lemma_stable_order_unique};

verus! {

/// The nodes other than `i`.
pub open spec fn other_than(i: usize) -> spec_fn(usize) -> bool {
    |j: usize| j != i
}

/// How many neighbours a node of a graph of `n` nodes gets when `k` are asked
/// for: `k`, but at least one and at most `n - 1`.
pub open spec fn neighbour_count(k: usize, n: usize) -> int {
    let m = if k <= n - 1 { k as int } else { n - 1 };
    if m >= 1 { m } else { 1 }
}

/// The `count` nodes nearest to node `i` (all of the others when there are fewer),
/// nearest first: the other nodes in the stable ascending order of their distance
/// keys, cut after `count`.
pub open spec fn nearest_others(dist_keys: Seq<u64>, i: usize, count: int) -> Seq<usize> {
    let others = stable_order_of(dist_keys, false).filter(other_than(i));
    if count <= others.len() {
        others.take(count)
    } else {
        others
    }
}

/// The neighbours of node `i` in a k-nearest graph, nearest first.
///
/// `dist_keys[j]` orders the distance from node `i` to node `j` (a nearer node has
/// a smaller key; the key at `i` itself is not read). The node gets
/// `neighbour_count(k, n)` neighbours: the nodes with the smallest keys, ties
/// going to the lower index.
pub fn nearest_neighbours(dist_keys: &Vec<u64>, i: usize, k: usize) -> (picked: Vec<usize>)
    requires
        dist_keys.len() >= 2,
        i < dist_keys.len(),
    ensures
        picked@ == nearest_others(dist_keys@, i, neighbour_count(k, dist_keys.len())),
{
    let n = dist_keys.len();
    let m = if k <= n - 1 { k } else { n - 1 };
    let count = if m >= 1 { m } else { 1 };
    let order = stable_order(dist_keys, false);
    let ghost f = other_than(i);
    proof {
        lemma_stable_order_unique(dist_keys@, false, order@, stable_order_of(dist_keys@, false));
        reveal(Seq::filter);
        assert(order@.take(0) =~= Seq::<usize>::empty());
    }
    let mut picked: Vec<usize> = Vec::new();
    let mut t: usize = 0;
    while t < order.len() && picked.len() < count
        invariant
            t <= order@.len(),
            f == other_than(i),
            picked@ == order@.take(t as int).filter(f),
            picked@.len() <= count,
        decreases order@.len() - t,
    {
        let j = order[t];
        proof {
            assert(order@.take(t + 1) =~= order@.take(t as int).push(j));
            order@.take(t as int).lemma_filter_push(j, f);
        }
        if j != i {
            picked.push(j);
        }
        t = t + 1;
    }
    proof {
        let others = order@.filter(f);
        assert(order@ =~= order@.take(t as int) + order@.skip(t as int));
        Seq::filter_distributes_over_add(order@.take(t as int), order@.skip(t as int), f);
        if t == order@.len() {
            assert(order@.take(t as int) =~= order@);
            assert(others.take(others.len() as int) =~= others);
        } else {
            assert(others.take(count as int) =~= picked@);
        }
    }
    picked
}

} // verus!
