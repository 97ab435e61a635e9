//! The undirected multigraph shared by every analysis, held in petgraph's
//! `UnGraph<u32, ()>`: each node carries the external id it was created from.
use petgraph::graph::{NodeIndex, UnGraph};
use vstd::prelude::*;

verus! {

#[verifier::external_type_specification]
#[verifier::external_body]
#[verifier::reject_recursive_types(N)]
#[verifier::reject_recursive_types(E)]
#[verifier::reject_recursive_types(Ty)]
#[verifier::reject_recursive_types(Ix)]
pub struct ExGraph<N, E, Ty, Ix>(petgraph::graph::Graph<N, E, Ty, Ix>);

#[verifier::external_type_specification]
#[verifier::external_body]
pub struct ExUndirected(petgraph::Undirected);

/// The external id carried by each node, in node-index order.
pub uninterp spec fn node_ids(g: UnGraph<u32, ()>) -> Seq<u32>;

/// The two endpoint indices of each edge, in edge-insertion order.
pub uninterp spec fn edge_ends(g: UnGraph<u32, ()>) -> Seq<(nat, nat)>;

/// Largest node or edge count of a graph indexed by `u32`.
pub const MAX_INDEX: usize = 0xffff_ffff;

/// Some edge joins `u` and `v`, in either direction.
pub open spec fn linked(g: UnGraph<u32, ()>, u: nat, v: nat) -> bool {
    exists|i: int|
        0 <= i < edge_ends(g).len() && (#[trigger] edge_ends(g)[i] == (u, v) || edge_ends(g)[i]
            == (v, u))
}

/// `p` is a walk: a non-empty sequence of nodes, each joined to the next by an edge.
pub open spec fn is_walk(g: UnGraph<u32, ()>, p: Seq<nat>) -> bool {
    &&& p.len() >= 1
    &&& forall|k: int| 0 <= k < p.len() ==> #[trigger] p[k] < node_ids(g).len()
    &&& forall|k: int| 0 <= k < p.len() - 1 ==> linked(g, #[trigger] p[k], p[k + 1])
}

/// Node `t` can be reached from node `s` (every node reaches itself).
pub open spec fn connected(g: UnGraph<u32, ()>, s: nat, t: nat) -> bool {
    exists|p: Seq<nat>| #[trigger] is_walk(g, p) && p[0] == s && p.last() == t
}

/// A node reaches itself.
pub proof fn lemma_connected_refl(g: UnGraph<u32, ()>, s: nat)
    requires
        s < node_ids(g).len(),
    ensures
        connected(g, s, s),
{
    let p = seq![s];
    assert(is_walk(g, p));
}

/// Reaching a node implies both ends are nodes of the graph.
pub proof fn lemma_connected_bounds(g: UnGraph<u32, ()>, s: nat, t: nat)
    requires
        connected(g, s, t),
    ensures
        s < node_ids(g).len(),
        t < node_ids(g).len(),
{
    let p = choose|p: Seq<nat>| #[trigger] is_walk(g, p) && p[0] == s && p.last() == t;
    assert(p[0] < node_ids(g).len());
    assert(p[p.len() - 1] < node_ids(g).len());
}

/// Reachability is symmetric: edges are undirected.
pub proof fn lemma_connected_symm(g: UnGraph<u32, ()>, s: nat, t: nat)
    requires
        connected(g, s, t),
    ensures
        connected(g, t, s),
{
    let p = choose|p: Seq<nat>| #[trigger] is_walk(g, p) && p[0] == s && p.last() == t;
    let q = p.reverse();
    assert forall|k: int| 0 <= k < q.len() - 1 implies linked(g, #[trigger] q[k], q[k + 1]) by {
        let j = p.len() - 2 - k;
        assert(linked(g, p[j], p[j + 1]));
        let i = choose|i: int|
            0 <= i < edge_ends(g).len() && (#[trigger] edge_ends(g)[i] == (p[j], p[j + 1])
                || edge_ends(g)[i] == (p[j + 1], p[j]));
        assert(q[k] == p[j + 1] && q[k + 1] == p[j]);
        assert(edge_ends(g)[i] == (q[k + 1], q[k]) || edge_ends(g)[i] == (q[k], q[k + 1]));
    }
    assert forall|k: int| 0 <= k < q.len() implies #[trigger] q[k] < node_ids(g).len() by {
        assert(q[k] == p[p.len() - 1 - k]);
    }
    assert(is_walk(g, q));
    assert(q[0] == t && q.last() == s);
}

/// Reachability is transitive: two walks that meet join into one.
pub proof fn lemma_connected_trans(g: UnGraph<u32, ()>, s: nat, m: nat, t: nat)
    requires
        connected(g, s, m),
        connected(g, m, t),
    ensures
        connected(g, s, t),
{
    let p = choose|p: Seq<nat>| #[trigger] is_walk(g, p) && p[0] == s && p.last() == m;
    let q = choose|q: Seq<nat>| #[trigger] is_walk(g, q) && q[0] == m && q.last() == t;
    let w = p + q.skip(1);
    assert forall|k: int| 0 <= k < w.len() implies #[trigger] w[k] < node_ids(g).len() by {
        if k < p.len() {
            assert(w[k] == p[k]);
        } else {
            assert(w[k] == q[k - p.len() + 1]);
        }
    }
    assert forall|k: int| 0 <= k < w.len() - 1 implies linked(g, #[trigger] w[k], w[k + 1]) by {
        if k < p.len() - 1 {
            assert(w[k] == p[k] && w[k + 1] == p[k + 1]);
        } else if k == p.len() - 1 {
            assert(w[k] == q[0] && w[k + 1] == q[1]);
        } else {
            let j = k - p.len() + 1;
            assert(w[k] == q[j] && w[k + 1] == q[j + 1]);
        }
    }
    assert(is_walk(g, w));
    if q.len() == 1 {
        assert(w.last() == p.last());
    } else {
        assert(w.last() == q.last());
    }
}

/// Relies on petgraph's `Graph::new_undirected`: a graph with no nodes and no edges.
#[verifier::external_body]
pub(crate) fn new_graph() -> (g: UnGraph<u32, ()>)
    ensures
        node_ids(g) == Seq::<u32>::empty(),
        edge_ends(g) == Seq::<(nat, nat)>::empty(),
{
    UnGraph::new_undirected()
}

/// Relies on petgraph's `Graph::add_node`: the node gets the next index and
/// carries `id`; it panics when the index would be `u32::MAX`.
#[verifier::external_body]
pub(crate) fn add_node(g: &mut UnGraph<u32, ()>, id: u32) -> (r: usize)
    requires
        node_ids(*old(g)).len() < MAX_INDEX,
    ensures
        r == node_ids(*old(g)).len(),
        node_ids(*final(g)) == node_ids(*old(g)).push(id),
        edge_ends(*final(g)) == edge_ends(*old(g)),
{
    g.add_node(id).index()
}

/// Relies on petgraph's `Graph::add_edge`: the edge `(a, b)` is appended, parallel
/// edges and self-loops included; it panics on a missing node or when the edge
/// index would be `u32::MAX`.
#[verifier::external_body]
pub(crate) fn add_edge(g: &mut UnGraph<u32, ()>, a: usize, b: usize)
    requires
        a < node_ids(*old(g)).len(),
        b < node_ids(*old(g)).len(),
        node_ids(*old(g)).len() <= MAX_INDEX,
        edge_ends(*old(g)).len() < MAX_INDEX,
    ensures
        node_ids(*final(g)) == node_ids(*old(g)),
        edge_ends(*final(g)) == edge_ends(*old(g)).push((a as nat, b as nat)),
{
    g.add_edge(NodeIndex::new(a), NodeIndex::new(b), ());
}

/// Relies on petgraph's `Graph::node_count`; `Graph::add_node` refuses to create
/// a node at index `u32::MAX`, so a `u32`-indexed graph holds at most that many.
#[verifier::external_body]
pub(crate) fn node_count(g: &UnGraph<u32, ()>) -> (r: usize)
    ensures
        r == node_ids(*g).len(),
        r <= MAX_INDEX,
{
    g.node_count()
}

/// Relies on petgraph's `Index<NodeIndex>` for `Graph`: the id carried by node `i`.
#[verifier::external_body]
pub(crate) fn node_id(g: &UnGraph<u32, ()>, i: usize) -> (r: u32)
    requires
        i < node_ids(*g).len(),
        node_ids(*g).len() <= MAX_INDEX,
    ensures
        r == node_ids(*g)[i as int],
{
    g[NodeIndex::new(i)]
}

/// Every edge costs one step.
fn unit_cost(_w: &()) -> (r: u32)
    ensures
        r == 1,
{
    1
}

/// Relies on petgraph's `algo::dijkstra` run without a goal: the keys of the map it
/// returns are exactly the nodes reachable from `start`, `start` included. The
/// order in which they come out is the map's own and is not stated.
#[verifier::external_body]
fn reachable_from(g: &UnGraph<u32, ()>, start: usize) -> (r: Vec<usize>)
    requires
        start < node_ids(*g).len(),
        node_ids(*g).len() <= MAX_INDEX,
    ensures
        forall|t: usize| r@.contains(t) <==> connected(*g, start as nat, t as nat),
{
    petgraph::algo::dijkstra(g, NodeIndex::new(start), None, |e| unit_cost(e.weight())).keys().map(
        |v| v.index(),
    ).collect()
}

/// For every node `t`, whether `t` can be reached from `s`.
pub(crate) fn reach_marks(g: &UnGraph<u32, ()>, n: usize, s: usize) -> (m: Vec<bool>)
    requires
        n == node_ids(*g).len(),
        n <= MAX_INDEX,
        s < n,
    ensures
        m@.len() == n,
        forall|t: int| 0 <= t < n ==> m@[t] == connected(*g, s as nat, t as nat),
{
    let reached = reachable_from(g, s);
    let mut m: Vec<bool> = Vec::new();
    let mut i: usize = 0;
    while i < n
        invariant
            i <= n,
            m@.len() == i,
            forall|t: int| 0 <= t < i ==> !m@[t],
        decreases n - i,
    {
        m.push(false);
        i = i + 1;
    }
    let mut k: usize = 0;
    while k < reached.len()
        invariant
            k <= reached@.len(),
            m@.len() == n,
            n == node_ids(*g).len(),
            forall|t: usize| reached@.contains(t) <==> connected(*g, s as nat, t as nat),
            forall|t: int|
                0 <= t < n ==> (m@[t] <==> exists|j: int| 0 <= j < k && reached@[j] == t),
        decreases reached@.len() - k,
    {
        let t = reached[k];
        assert(reached@.contains(t));
        proof {
            lemma_connected_bounds(*g, s as nat, t as nat);
        }
        m.set(t, true);
        k = k + 1;
        assert forall|u: int| 0 <= u < n implies (m@[u] <==> exists|j: int|
            0 <= j < k && reached@[j] == u) by {
            if m@[u] && u != t {
                let j = choose|j: int| 0 <= j < k - 1 && reached@[j] == u;
                assert(0 <= j < k && reached@[j] == u);
            }
            if u == t {
                assert(reached@[k - 1] == u);
            }
        }
    }
    assert forall|t: int| 0 <= t < n implies m@[t] == connected(*g, s as nat, t as nat) by {
        if m@[t] {
            let j = choose|j: int| 0 <= j < k && reached@[j] == t;
            assert(reached@.contains(t as usize));
        }
        if connected(*g, s as nat, t as nat) {
            assert(reached@.contains(t as usize));
            let j = choose|j: int| 0 <= j < reached@.len() && reached@[j] == t as usize;
            assert(reached@[j] == t);
        }
    }
    m
}

} // verus!
