//! Clustering: the partition of the nodes into connected components.
use crate::builder::{appears, built_from, lemma_first_seen};
use crate::network::{
    connected, lemma_connected_refl, lemma_connected_symm, lemma_connected_trans, node_count, node_id, node_ids, reach_marks, MAX_INDEX,
};
use petgraph::graph::UnGraph;
use vstd::prelude::*;

verus! {

/// Node `s` is the lowest-indexed node of its component.
pub open spec fn is_leader(g: UnGraph<u32, ()>, s: nat) -> bool {
    s < node_ids(g).len() && forall|p: nat| p < s ==> !#[trigger] connected(g, p, s)
}

/// Some node below index `k` reaches `t`.
pub open spec fn reached_below(g: UnGraph<u32, ()>, k: nat, t: nat) -> bool {
    exists|p: nat| p < k && #[trigger] connected(g, p, t)
}

/// The component leaders below index `k`, in index order.
pub open spec fn leaders_upto(g: UnGraph<u32, ()>, k: nat) -> Seq<nat>
    decreases k,
{
    if k == 0 {
        Seq::empty()
    } else {
        let s = (k - 1) as nat;
        if is_leader(g, s) {
            leaders_upto(g, s).push(s)
        } else {
            leaders_upto(g, s)
        }
    }
}

/// The ids of the nodes below index `k` that `s` reaches, in index order.
pub open spec fn members_upto(g: UnGraph<u32, ()>, s: nat, k: nat) -> Seq<u32>
    decreases k,
{
    if k == 0 {
        Seq::empty()
    } else {
        let t = (k - 1) as nat;
        if connected(g, s, t) {
            members_upto(g, s, t).push(node_ids(g)[t as int])
        } else {
            members_upto(g, s, t)
        }
    }
}

/// The clusters of `g`: one per connected component, ordered by the component's
/// lowest node index, each listing the ids of its nodes in index order.
pub open spec fn clusters_of(g: UnGraph<u32, ()>) -> Seq<Seq<u32>> {
    let n = node_ids(g).len();
    leaders_upto(g, n).map_values(|s: nat| members_upto(g, s, n))
}

/// `r` holds exactly the clusters of `g`.
pub open spec fn clustering_of(g: UnGraph<u32, ()>, r: Seq<Vec<u32>>) -> bool {
    &&& r.len() == clusters_of(g).len()
    &&& forall|i: int| 0 <= i < r.len() ==> #[trigger] r[i]@ == clusters_of(g)[i]
}

/// Lists, in index order, the ids of the nodes that `marks` flags (those that
/// `s` reaches) and flags the same nodes in `assigned`.
fn take_component(
    g: &UnGraph<u32, ()>,
    n: usize,
    s: usize,
    marks: &Vec<bool>,
    assigned: &mut Vec<bool>,
) -> (cluster: Vec<u32>)
    requires
        n == node_ids(*g).len(),
        n <= MAX_INDEX,
        s < n,
        marks@.len() == n,
        old(assigned)@.len() == n,
        forall|u: int| 0 <= u < n ==> marks@[u] == connected(*g, s as nat, u as nat),
    ensures
        final(assigned)@.len() == n,
        forall|u: int|
            0 <= u < n ==> #[trigger] final(assigned)@[u] == (old(assigned)@[u] || marks@[u]),
        cluster@ == members_upto(*g, s as nat, n as nat),
{
    let ghost prev = assigned@;
    let mut cluster: Vec<u32> = Vec::new();
    let mut t: usize = 0;
    while t < n
        invariant
            n == node_ids(*g).len(),
            n <= MAX_INDEX,
            t <= n,
            assigned@.len() == n,
            marks@.len() == n,
            prev.len() == n,
            forall|u: int| 0 <= u < n ==> marks@[u] == connected(*g, s as nat, u as nat),
            forall|u: int| 0 <= u < t ==> #[trigger] assigned@[u] == (prev[u] || marks@[u]),
            forall|u: int| t <= u < n ==> #[trigger] assigned@[u] == prev[u],
            cluster@ == members_upto(*g, s as nat, t as nat),
        decreases n - t,
    {
        if marks[t] {
            let id = node_id(g, t);
            cluster.push(id);
            assigned.set(t, true);
        }
        t = t + 1;
    }
    cluster
}

/// Groups the nodes of `g` into connected components. Two nodes share a cluster
/// exactly when a path of edges joins them; a node without edges, or with only a
/// self-loop, is a cluster of its own.
pub fn perform_clustering(g: &UnGraph<u32, ()>) -> (r: Vec<Vec<u32>>)
    ensures
        clustering_of(*g, r@),
{
    let n = node_count(g);
    let mut assigned: Vec<bool> = Vec::new();
    let mut i: usize = 0;
    while i < n
        invariant
            i <= n,
            assigned@.len() == i,
            forall|t: int| 0 <= t < i ==> !assigned@[t],
        decreases n - i,
    {
        assigned.push(false);
        i = i + 1;
    }
    let mut clusters: Vec<Vec<u32>> = Vec::new();
    let mut s: usize = 0;
    while s < n
        invariant
            n == node_ids(*g).len(),
            n <= MAX_INDEX,
            s <= n,
            assigned@.len() == n,
            forall|t: int| 0 <= t < n ==> assigned@[t] == reached_below(*g, s as nat, t as nat),
            clusters@.len() == leaders_upto(*g, s as nat).len(),
            forall|i: int|
                0 <= i < clusters@.len() ==> #[trigger] clusters@[i]@ == members_upto(
                    *g,
                    leaders_upto(*g, s as nat)[i],
                    n as nat,
                ),
        decreases n - s,
    {
        let ghost prev = assigned@;
        if !assigned[s] {
            assert forall|p: nat| p < s implies !#[trigger] connected(*g, p, s as nat) by {
                assert(!assigned@[s as int]);
                assert(!reached_below(*g, s as nat, s as nat));
            }
            assert(is_leader(*g, s as nat));
            let marks = reach_marks(g, n, s);
            let cluster = take_component(g, n, s, &marks, &mut assigned);
            clusters.push(cluster);
            assert forall|u: int| 0 <= u < n implies assigned@[u] == reached_below(
                *g,
                (s + 1) as nat,
                u as nat,
            ) by {
                assert(marks@[u] == connected(*g, s as nat, u as nat));
                if connected(*g, s as nat, u as nat) {
                    assert((s as nat) < s + 1);
                }
                if prev[u] {
                    let p = choose|p: nat| p < s && #[trigger] connected(*g, p, u as nat);
                    assert(p < s + 1);
                }
                if !prev[u] && !connected(*g, s as nat, u as nat) {
                    assert forall|p: nat| p < s + 1 implies !#[trigger] connected(
                        *g,
                        p,
                        u as nat,
                    ) by {
                        if p < s {
                        }
                    }
                }
            }
            assert(leaders_upto(*g, (s + 1) as nat) == leaders_upto(*g, s as nat).push(s as nat));
        } else {
            let ghost earlier = choose|p: nat| p < s && #[trigger] connected(*g, p, s as nat);
            assert(!is_leader(*g, s as nat));
            assert forall|u: int| 0 <= u < n implies assigned@[u] == reached_below(
                *g,
                (s + 1) as nat,
                u as nat,
            ) by {
                if connected(*g, s as nat, u as nat) {
                    lemma_connected_trans(*g, earlier, s as nat, u as nat);
                }
                if !assigned@[u] {
                    assert forall|p: nat| p < s + 1 implies !#[trigger] connected(
                        *g,
                        p,
                        u as nat,
                    ) by {
                        if p < s {
                        }
                    }
                }
            }
        }
        s = s + 1;
    }
    clusters
}

/// Every id listed by `members_upto` is the id of some node.
proof fn lemma_members_are_nodes(g: UnGraph<u32, ()>, s: nat, k: nat)
    requires
        k <= node_ids(g).len(),
    ensures
        forall|j: int|
            0 <= j < members_upto(g, s, k).len() ==> node_ids(g).contains(
                #[trigger] members_upto(g, s, k)[j],
            ),
    decreases k,
{
    if k > 0 {
        let t = (k - 1) as nat;
        lemma_members_are_nodes(g, s, t);
        let prev = members_upto(g, s, t);
        let cur = members_upto(g, s, k);
        assert forall|j: int| 0 <= j < cur.len() implies node_ids(g).contains(#[trigger] cur[j]) by {
            if j < prev.len() {
                assert(cur[j] == prev[j]);
            } else {
                assert(cur[j] == node_ids(g)[t as int]);
            }
        }
    }
}

/// Clustering a graph built from an edge list lists only ids that occur in
/// that list: no node is made up for an id the list never names.
pub proof fn lemma_clusters_hold_listed_ids(edges: Seq<(u32, u32)>, g: UnGraph<u32, ()>)
    requires
        built_from(g, edges),
    ensures
        forall|i: int, j: int|
            0 <= i < clusters_of(g).len() && 0 <= j < clusters_of(g)[i].len() ==> appears(
                edges,
                #[trigger] clusters_of(g)[i][j],
            ),
{
    lemma_first_seen(edges);
    let n = node_ids(g).len();
    assert forall|i: int, j: int|
        0 <= i < clusters_of(g).len() && 0 <= j < clusters_of(g)[i].len() implies appears(
        edges,
        #[trigger] clusters_of(g)[i][j],
    ) by {
        let s = leaders_upto(g, n)[i];
        lemma_members_are_nodes(g, s, n);
        assert(clusters_of(g)[i] == members_upto(g, s, n));
        assert(node_ids(g).contains(members_upto(g, s, n)[j]));
    }
}

/// Clustering one graph twice gives the same clusters in the same order.
pub proof fn lemma_clustering_repeatable(g: UnGraph<u32, ()>, a: Seq<Vec<u32>>, b: Seq<Vec<u32>>)
    requires
        clustering_of(g, a),
        clustering_of(g, b),
    ensures
        a.len() == b.len(),
        forall|i: int| 0 <= i < a.len() ==> #[trigger] a[i]@ == b[i]@,
{
}

/// The leaders below `k` are exactly the leaders with an index below `k`, in
/// increasing order.
proof fn lemma_leaders_upto(g: UnGraph<u32, ()>, k: nat)
    ensures
        forall|i: int|
            0 <= i < leaders_upto(g, k).len() ==> is_leader(g, #[trigger] leaders_upto(g, k)[i])
                && leaders_upto(g, k)[i] < k,
        forall|s: nat| s < k && is_leader(g, s) ==> #[trigger] leaders_upto(g, k).contains(s),
        forall|i: int, j: int|
            0 <= i < j < leaders_upto(g, k).len() ==> #[trigger] leaders_upto(g, k)[i]
                < #[trigger] leaders_upto(g, k)[j],
    decreases k,
{
    if k > 0 {
        let s = (k - 1) as nat;
        lemma_leaders_upto(g, s);
        let prev = leaders_upto(g, s);
        let cur = leaders_upto(g, k);
        if is_leader(g, s) {
            assert(cur[prev.len() as int] == s);
            assert forall|t: nat| t < k && is_leader(g, t) implies #[trigger] cur.contains(t) by {
                if t < s {
                    assert(prev.contains(t));
                    let j = prev.index_of(t);
                    assert(cur[j] == t);
                }
            }
        }
    }
}

/// Some leader no later than `t` reaches `t`.
proof fn lemma_has_leader(g: UnGraph<u32, ()>, t: nat)
    requires
        t < node_ids(g).len(),
    ensures
        exists|l: nat| l <= t && is_leader(g, l) && #[trigger] connected(g, l, t),
    decreases t,
{
    if is_leader(g, t) {
        lemma_connected_refl(g, t);
    } else {
        let p = choose|p: nat| p < t && #[trigger] connected(g, p, t);
        lemma_has_leader(g, p);
        let l = choose|l: nat| l <= p && is_leader(g, l) && #[trigger] connected(g, l, p);
        lemma_connected_trans(g, l, p, t);
    }
}

/// Every node lies in exactly one cluster: the one led by the lowest-indexed
/// node of its connected component.
pub proof fn lemma_each_node_in_one_cluster(g: UnGraph<u32, ()>, t: nat)
    requires
        t < node_ids(g).len(),
    ensures
        exists|i: int|
            0 <= i < leaders_upto(g, node_ids(g).len()).len() && #[trigger] connected(
                g,
                leaders_upto(g, node_ids(g).len())[i],
                t,
            ),
        forall|i: int, j: int|
            0 <= i < leaders_upto(g, node_ids(g).len()).len() && 0 <= j < leaders_upto(
                g,
                node_ids(g).len(),
            ).len() && #[trigger] connected(g, leaders_upto(g, node_ids(g).len())[i], t)
                && #[trigger] connected(g, leaders_upto(g, node_ids(g).len())[j], t) ==> i == j,
{
    let n = node_ids(g).len();
    let ls = leaders_upto(g, n);
    lemma_leaders_upto(g, n);
    lemma_has_leader(g, t);
    let l = choose|l: nat| l <= t && is_leader(g, l) && #[trigger] connected(g, l, t);
    assert(ls.contains(l));
    let i0 = ls.index_of(l);
    assert(connected(g, ls[i0], t));
    assert forall|i: int, j: int|
        0 <= i < ls.len() && 0 <= j < ls.len() && #[trigger] connected(g, ls[i], t)
            && #[trigger] connected(g, ls[j], t) implies i == j by {
        if i != j {
            let (a, b) = if i < j {
                (i, j)
            } else {
                (j, i)
            };
            assert(ls[a] < ls[b]);
            lemma_connected_symm(g, ls[b], t);
            lemma_connected_trans(g, ls[a], t, ls[b]);
            assert(is_leader(g, ls[b]));
            assert(!connected(g, ls[a], ls[b]));
        }
    }
}

} // verus!
