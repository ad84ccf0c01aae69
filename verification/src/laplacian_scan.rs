//! Grouping poetic traditions by spectral proximity.
//!
//! Traditions are taken in order; each one not yet placed starts a new cluster
//! and takes in every later unplaced tradition close to it.

use vstd::prelude::*;
use crate::phrase::strictly_increasing;

verus! {

/// Which of the first `m` traditions start a cluster: a tradition does exactly when
/// no earlier cluster leader is close to it.
pub open spec fn leader_flags(close: Seq<Seq<bool>>, m: int) -> Seq<bool>
    decreases m,
{
    if m <= 0 {
        Seq::empty()
    } else {
        let f = leader_flags(close, m - 1);
        f.push(forall|i: int| 0 <= i < m - 1 && #[trigger] f[i] ==> !close[i][m - 1])
    }
}

/// Tradition `j` starts a cluster.
pub open spec fn is_leader(close: Seq<Seq<bool>>, j: int) -> bool {
    leader_flags(close, j + 1)[j]
}

/// The first leader at or after `i` (and before `j`) that is close to `j`, or `j` itself.
pub open spec fn first_close_leader(close: Seq<Seq<bool>>, j: int, i: int) -> int
    decreases j - i,
{
    if i >= j {
        j
    } else if is_leader(close, i) && close[i][j] {
        i
    } else {
        first_close_leader(close, j, i + 1)
    }
}

/// The leader of the cluster that tradition `j` joins (itself, when it leads one).
pub open spec fn cluster_of(close: Seq<Seq<bool>>, j: int) -> int {
    first_close_leader(close, j, 0)
}

/// The rows of a closeness matrix, as sequences.
pub open spec fn closeness_rows(close: Seq<Vec<bool>>) -> Seq<Seq<bool>> {
    close.map_values(|row: Vec<bool>| row@)
}

proof fn lemma_leader_flags_prefix(close: Seq<Seq<bool>>, m: int)
    requires
        m >= 0,
    ensures
        leader_flags(close, m).len() == m,
        forall|j: int| 0 <= j < m ==> #[trigger] leader_flags(close, m)[j] == is_leader(close, j),
    decreases m,
{
    if m > 0 {
        lemma_leader_flags_prefix(close, m - 1);
        let f = leader_flags(close, m - 1);
        assert forall|j: int| 0 <= j < m implies #[trigger] leader_flags(close, m)[j] == is_leader(close, j) by {
            if j < m - 1 {
                assert(leader_flags(close, m)[j] == f[j]);
            }
        }
    }
}

proof fn lemma_is_leader_def(close: Seq<Seq<bool>>, j: int)
    requires
        j >= 0,
    ensures
        is_leader(close, j) <==> (forall|i: int| 0 <= i < j && is_leader(close, i) ==> !close[i][j]),
{
    lemma_leader_flags_prefix(close, j);
    let f = leader_flags(close, j);
    assert(is_leader(close, j) == (forall|i: int| 0 <= i < j && #[trigger] f[i] ==> !close[i][j]));
    if is_leader(close, j) {
        assert forall|i: int| 0 <= i < j && is_leader(close, i) implies !close[i][j] by {
            assert(f[i] == is_leader(close, i));
        }
    } else {
        let i = choose|i: int| 0 <= i < j && #[trigger] f[i] && !!close[i][j];
        assert(f[i] == is_leader(close, i));
    }
}

proof fn lemma_first_close_leader(close: Seq<Seq<bool>>, j: int, i: int)
    requires
        0 <= i <= j,
    ensures
        i <= first_close_leader(close, j, i) <= j,
        first_close_leader(close, j, i) < j ==> is_leader(close, first_close_leader(close, j, i))
            && close[first_close_leader(close, j, i)][j],
        forall|l: int| i <= l < first_close_leader(close, j, i) ==> !(is_leader(close, l) && close[l][j]),
    decreases j - i,
{
    if i < j && !(is_leader(close, i) && close[i][j]) {
        lemma_first_close_leader(close, j, i + 1);
    }
}

/// The leader of `j`'s cluster: at most `j`; a leader close to `j` when it differs from
/// `j`; no earlier leader is close to `j`; and it is `j` exactly when `j` leads.
pub proof fn lemma_cluster_of(close: Seq<Seq<bool>>, j: int)
    requires
        j >= 0,
    ensures
        0 <= cluster_of(close, j) <= j,
        cluster_of(close, j) < j ==> is_leader(close, cluster_of(close, j)) && close[cluster_of(close, j)][j],
        forall|l: int| 0 <= l < cluster_of(close, j) ==> !(is_leader(close, l) && close[l][j]),
        cluster_of(close, j) == j <==> is_leader(close, j),
{
    lemma_first_close_leader(close, j, 0);
    lemma_is_leader_def(close, j);
    if cluster_of(close, j) < j {
        assert(!is_leader(close, j));
    }
}

/// The contents of the clusters, as sequences.
pub open spec fn cluster_lists(clusters: Seq<Vec<usize>>) -> Seq<Seq<usize>> {
    clusters.map_values(|c: Vec<usize>| c@)
}

/// The clusters of the leaders below `upto` under the greedy grouping of `n`
/// traditions: each cluster lists, in increasing order, a leader and the traditions
/// that join it; clusters come in the order of their leaders; each leader below
/// `upto` has one.
pub open spec fn greedy_clusters_upto(close: Seq<Seq<bool>>, n: int, clusters: Seq<Seq<usize>>, upto: int) -> bool {
    &&& forall|c: int| 0 <= c < clusters.len() ==> (#[trigger] clusters[c]).len() >= 1 && strictly_increasing(clusters[c])
    &&& forall|c: int| 0 <= c < clusters.len() ==> is_leader(close, #[trigger] clusters[c][0] as int)
    &&& forall|c: int| 0 <= c < clusters.len() ==> (#[trigger] clusters[c])[0] < upto
    &&& forall|c: int, d: int| 0 <= c < d < clusters.len() ==> (#[trigger] clusters[c])[0] < (#[trigger] clusters[d])[0]
    &&& forall|c: int, k: int|
        0 <= c < clusters.len() && 0 <= k < clusters[c].len() ==> #[trigger] clusters[c][k] < n
            && cluster_of(close, clusters[c][k] as int) == clusters[c][0]
    &&& forall|c: int, j: int|
        #![trigger clusters[c], cluster_of(close, j)]
        0 <= c < clusters.len() && 0 <= j < n && cluster_of(close, j) == clusters[c][0] ==> clusters[c].contains(j as usize)
    &&& forall|j: int| 0 <= j < upto && is_leader(close, j) ==> exists|c: int| 0 <= c < clusters.len() && #[trigger] clusters[c][0] == j
}

/// `clusters` is the greedy grouping of all `n` traditions under `close`.
pub open spec fn is_greedy_clustering(close: Seq<Seq<bool>>, n: int, clusters: Seq<Seq<usize>>) -> bool {
    greedy_clusters_upto(close, n, clusters, n)
}

/// Groups `n` traditions: `close[i][j]` (for `i < j`) says whether traditions `i` and
/// `j` are within the clustering threshold of each other. Returns the clusters as
/// lists of tradition indices.
pub fn proximity_clusters(close: &Vec<Vec<bool>>) -> (clusters: Vec<Vec<usize>>)
    requires
        forall|i: int| 0 <= i < close@.len() ==> #[trigger] close@[i]@.len() == close@.len(),
    ensures
        is_greedy_clustering(closeness_rows(close@), close@.len() as int, cluster_lists(clusters@)),
{
    let n = close.len();
    let ghost cl = closeness_rows(close@);
    let mut assigned: Vec<bool> = Vec::new();
    for k in 0..n
        invariant
            assigned@ == Seq::new(k as nat, |x: int| false),
    {
        assigned.push(false);
        proof {
            assert(assigned@ =~= Seq::new((k + 1) as nat, |x: int| false));
        }
    }
    let mut clusters: Vec<Vec<usize>> = Vec::new();
    proof {
        assert forall|j: int| 0 <= j < n implies (#[trigger] assigned@[j] <==> cluster_of(cl, j) < 0) by {
            lemma_cluster_of(cl, j);
        }
    }
    for i in 0..n
        invariant
            n == close@.len(),
            cl == closeness_rows(close@),
            forall|a: int| 0 <= a < n ==> #[trigger] close@[a]@.len() == n,
            assigned.len() == n,
            forall|j: int| 0 <= j < i ==> #[trigger] assigned@[j],
            forall|j: int| i <= j < n ==> (#[trigger] assigned@[j] <==> cluster_of(cl, j) < i),
            greedy_clusters_upto(cl, n as int, cluster_lists(clusters@), i as int),
    {
        proof {
            lemma_cluster_of(cl, i as int);
        }
        if !assigned[i] {
            let ghost prev = cluster_lists(clusters@);
            let mut cluster: Vec<usize> = Vec::new();
            cluster.push(i);
            assigned.set(i, true);
            proof {
                assert forall|x: int| 0 <= x < i + 1 && cluster_of(cl, x) == i implies cluster@.contains(x as usize) by {
                    lemma_cluster_of(cl, x);
                    assert(cluster@[0] == i);
                }
            }
            for j in (i + 1)..n
                invariant
                    n == close@.len(),
                    cl == closeness_rows(close@),
                    forall|a: int| 0 <= a < n ==> #[trigger] close@[a]@.len() == n,
                    i < n,
                    is_leader(cl, i as int),
                    assigned.len() == n,
                    forall|x: int| 0 <= x <= i ==> #[trigger] assigned@[x],
                    forall|x: int| i < x < j ==> (#[trigger] assigned@[x] <==> cluster_of(cl, x) <= i),
                    forall|x: int| j <= x < n ==> (#[trigger] assigned@[x] <==> cluster_of(cl, x) < i),
                    cluster@.len() >= 1,
                    cluster@[0] == i,
                    strictly_increasing(cluster@),
                    forall|k: int| 0 <= k < cluster@.len() ==> i <= #[trigger] cluster@[k] < j,
                    forall|k: int| 0 <= k < cluster@.len() ==> cluster_of(cl, #[trigger] cluster@[k] as int) == i,
                    forall|x: int| 0 <= x < j && cluster_of(cl, x) == i ==> cluster@.contains(x as usize),
            {
                proof {
                    lemma_cluster_of(cl, j as int);
                    assert(cl[i as int] == close@[i as int]@);
                }
                if !assigned[j] && close[i][j] {
                    let ghost before = cluster@;
                    cluster.push(j);
                    assigned.set(j, true);
                    proof {
                        assert(cluster@[cluster@.len() - 1] == j);
                        assert forall|a: int, b: int| 0 <= a < b < cluster@.len() implies #[trigger] cluster@[a] < #[trigger] cluster@[b] by {
                            if b < before.len() {
                                assert(cluster@[a] == before[a] && cluster@[b] == before[b]);
                            } else {
                                assert(cluster@[a] == before[a]);
                            }
                        }
                        assert forall|x: int| 0 <= x < j + 1 && cluster_of(cl, x) == i implies cluster@.contains(x as usize) by {
                            if x < j {
                                let k = choose|k: int| 0 <= k < before.len() && before[k] == x as usize;
                                assert(cluster@[k] == x as usize);
                            } else {
                                assert(cluster@[cluster@.len() - 1] == x as usize);
                            }
                        }
                    }
                } else {
                    proof {
                        if cluster_of(cl, j as int) == i {
                            assert(close@[i as int]@[j as int]);
                        }
                    }
                }
            }
            clusters.push(cluster);
            proof {
                let now = cluster_lists(clusters@);
                assert(now =~= prev.push(cluster@));
                assert forall|x: int| i + 1 <= x < n implies (#[trigger] assigned@[x] <==> cluster_of(cl, x) < i + 1) by {
                }
                assert forall|c: int, jj: int|
                    #![trigger now[c], cluster_of(cl, jj)]
                    0 <= c < now.len() && 0 <= jj < n && cluster_of(cl, jj) == now[c][0] implies now[c].contains(jj as usize) by {
                    if c < prev.len() {
                        assert(now[c] == prev[c]);
                    } else {
                        lemma_cluster_of(cl, jj);
                    }
                }
                assert forall|jj: int| 0 <= jj < i + 1 && is_leader(cl, jj) implies exists|c: int| 0 <= c < now.len() && #[trigger] now[c][0] == jj by {
                    if jj < i {
                        let c = choose|c: int| 0 <= c < prev.len() && #[trigger] prev[c][0] == jj;
                        assert(now[c] == prev[c]);
                    } else {
                        assert(now[now.len() - 1][0] == jj);
                    }
                }
                assert forall|c: int, d: int| 0 <= c < d < now.len() implies (#[trigger] now[c])[0] < (#[trigger] now[d])[0] by {
                    if d < prev.len() {
                        assert(now[c] == prev[c] && now[d] == prev[d]);
                    } else {
                        assert(now[c] == prev[c]);
                    }
                }
                assert forall|c: int, k: int|
                    0 <= c < now.len() && 0 <= k < now[c].len() implies #[trigger] now[c][k] < n
                        && cluster_of(cl, now[c][k] as int) == now[c][0] by {
                    if c < prev.len() {
                        assert(now[c] == prev[c]);
                    }
                }
                assert forall|c: int| 0 <= c < now.len() implies (#[trigger] now[c]).len() >= 1 && strictly_increasing(now[c])
                    && is_leader(cl, now[c][0] as int) && now[c][0] < i + 1 by {
                    if c < prev.len() {
                        assert(now[c] == prev[c]);
                    }
                }
            }
        } else {
            proof {
                let now = cluster_lists(clusters@);
                assert(!is_leader(cl, i as int));
                assert forall|x: int| i + 1 <= x < n implies (#[trigger] assigned@[x] <==> cluster_of(cl, x) < i + 1) by {
                    lemma_cluster_of(cl, x);
                }
            }
        }
    }
    clusters
}


/// Tradition `j` lies in one of the clusters.
pub open spec fn in_some_cluster(clusters: Seq<Seq<usize>>, j: int) -> bool {
    exists|c: int| 0 <= c < clusters.len() && #[trigger] clusters[c].contains(j as usize)
}

/// Greedy clustering partitions the traditions: each one lies in exactly one cluster,
/// the cluster headed by the leader it joins.
pub proof fn lemma_clustering_partitions(close: Seq<Seq<bool>>, n: int, clusters: Seq<Seq<usize>>)
    requires
        is_greedy_clustering(close, n, clusters),
    ensures
        forall|j: int| 0 <= j < n ==> #[trigger] in_some_cluster(clusters, j),
        forall|j: int, c: int, d: int|
            0 <= c < clusters.len() && 0 <= d < clusters.len() && #[trigger] clusters[c].contains(j as usize)
                && #[trigger] clusters[d].contains(j as usize) ==> c == d,
{
    assert forall|j: int| 0 <= j < n implies #[trigger] in_some_cluster(clusters, j) by {
        lemma_cluster_of(close, j);
        let l = cluster_of(close, j);
        assert(is_leader(close, l));
        let c = choose|c: int| 0 <= c < clusters.len() && #[trigger] clusters[c][0] == l;
        assert(clusters[c].contains(j as usize));
    }
    assert forall|j: int, c: int, d: int|
        0 <= c < clusters.len() && 0 <= d < clusters.len() && #[trigger] clusters[c].contains(j as usize)
            && #[trigger] clusters[d].contains(j as usize) implies c == d by {
        let k = choose|k: int| 0 <= k < clusters[c].len() && clusters[c][k] == j as usize;
        let m = choose|m: int| 0 <= m < clusters[d].len() && clusters[d][m] == j as usize;
        assert(cluster_of(close, clusters[c][k] as int) == clusters[c][0]);
        assert(cluster_of(close, clusters[d][m] as int) == clusters[d][0]);
        if c < d {
            assert(clusters[c][0] < clusters[d][0]);
        } else if d < c {
            assert(clusters[d][0] < clusters[c][0]);
        }
    }
}

} // verus!
