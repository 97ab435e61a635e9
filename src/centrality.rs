//! Reachability centrality: for each node, how many other nodes can reach it.
use crate::network::{connected, node_count, node_id, node_ids, reach_marks, MAX_INDEX};
use petgraph::graph::UnGraph;
use vstd::prelude::*;

verus! {

/// Centrality of each node that some other node reaches, kept as an exact
/// fraction: the score of `entries[i].0` is `entries[i].1 / divisor`.
/// Graphs of fewer than three nodes have no scores at all.
#[derive(Debug)]
pub struct CentralityScores {
    /// Pairs of a node's external id and how many other nodes reach it, in node-index order.
    pub entries: Vec<(u32, u64)>,
    /// `(n - 1) * (n - 2)` for a graph of `n >= 3` nodes, else 0.
    pub divisor: u64,
}

/// How many nodes `s < k`, other than `t`, reach `t`.
pub open spec fn in_count(g: UnGraph<u32, ()>, t: nat, k: nat) -> nat
    decreases k,
{
    if k == 0 {
        0
    } else {
        in_count(g, t, (k - 1) as nat) + if (k - 1) as nat != t && connected(
            g,
            (k - 1) as nat,
            t,
        ) {
            1nat
        } else {
            0nat
        }
    }
}

/// The number of nodes, other than `t`, that reach `t`.
pub open spec fn reach_count(g: UnGraph<u32, ()>, t: nat) -> nat {
    in_count(g, t, node_ids(g).len())
}

/// The entries for nodes `t < k` that some other node reaches, in index order.
pub open spec fn entries_upto(g: UnGraph<u32, ()>, k: nat) -> Seq<(u32, u64)>
    decreases k,
{
    if k == 0 {
        Seq::empty()
    } else {
        let t = (k - 1) as nat;
        let prev = entries_upto(g, t);
        if reach_count(g, t) > 0 {
            prev.push((node_ids(g)[t as int], reach_count(g, t) as u64))
        } else {
            prev
        }
    }
}

/// The normalisation `(n - 1) * (n - 2)` of a graph of `n` nodes.
pub open spec fn divisor_of(n: nat) -> int {
    (n - 1) * (n - 2)
}

/// `r` is the centrality of `g`: empty below three nodes, else one entry for
/// each node that another node reaches.
pub open spec fn centrality_of(g: UnGraph<u32, ()>, r: CentralityScores) -> bool {
    let n = node_ids(g).len();
    if n <= 2 {
        r.entries@.len() == 0 && r.divisor == 0
    } else {
        r.entries@ == entries_upto(g, n) && r.divisor == divisor_of(n)
    }
}

proof fn lemma_in_count_bound(g: UnGraph<u32, ()>, t: nat, k: nat)
    ensures
        in_count(g, t, k) <= k,
    decreases k,
{
    if k > 0 {
        lemma_in_count_bound(g, t, (k - 1) as nat);
    }
}

/// Counts, for each node, the other nodes from which it can be reached, and
/// keeps the counts that are not zero, with the divisor that turns them into
/// scores. A node never reaches itself here, self-loop or not.
pub fn compute_centrality_measures(g: &UnGraph<u32, ()>) -> (r: CentralityScores)
    ensures
        centrality_of(*g, r),
{
    let n = node_count(g);
    if n <= 2 {
        return CentralityScores { entries: Vec::new(), divisor: 0 };
    }
    let mut counts: Vec<u64> = Vec::new();
    let mut i: usize = 0;
    while i < n
        invariant
            i <= n,
            counts@.len() == i,
            forall|t: int| 0 <= t < i ==> counts@[t] == 0,
        decreases n - i,
    {
        counts.push(0);
        i = i + 1;
    }
    let mut s: usize = 0;
    while s < n
        invariant
            n == node_ids(*g).len(),
            n <= MAX_INDEX,
            s <= n,
            counts@.len() == n,
            forall|t: int| 0 <= t < n ==> counts@[t] == in_count(*g, t as nat, s as nat),
        decreases n - s,
    {
        let marks = reach_marks(g, n, s);
        let mut t: usize = 0;
        while t < n
            invariant
                n == node_ids(*g).len(),
                n <= MAX_INDEX,
                s < n,
                t <= n,
                counts@.len() == n,
                marks@.len() == n,
                forall|u: int| 0 <= u < n ==> marks@[u] == connected(*g, s as nat, u as nat),
                forall|u: int| 0 <= u < t ==> counts@[u] == in_count(*g, u as nat, (s + 1) as nat),
                forall|u: int| t <= u < n ==> counts@[u] == in_count(*g, u as nat, s as nat),
            decreases n - t,
        {
            if marks[t] && t != s {
                proof {
                    lemma_in_count_bound(*g, t as nat, s as nat);
                }
                counts.set(t, counts[t] + 1);
            }
            t = t + 1;
        }
        s = s + 1;
    }
    let mut entries: Vec<(u32, u64)> = Vec::new();
    let mut t: usize = 0;
    while t < n
        invariant
            n == node_ids(*g).len(),
            n <= MAX_INDEX,
            t <= n,
            counts@.len() == n,
            forall|u: int| 0 <= u < n ==> counts@[u] == reach_count(*g, u as nat),
            entries@ == entries_upto(*g, t as nat),
        decreases n - t,
    {
        if counts[t] > 0 {
            let id = node_id(g, t);
            entries.push((id, counts[t]));
        }
        t = t + 1;
    }
    let m = n as u64;
    assert((m - 1) * (m - 2) <= 0xffff_ffff_ffff_ffffu64) by (nonlinear_arith)
        requires
            3 <= m <= 0xffff_ffff,
    ;
    CentralityScores { entries, divisor: (m - 1) * (m - 2) }
}

/// Computing the centrality of one graph twice gives the same scores.
pub proof fn lemma_centrality_repeatable(
    g: UnGraph<u32, ()>,
    a: CentralityScores,
    b: CentralityScores,
)
    requires
        centrality_of(g, a),
        centrality_of(g, b),
    ensures
        a.entries@ == b.entries@,
        a.divisor == b.divisor,
{
}

} // verus!
