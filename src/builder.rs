//! Building the graph from an edge list of external ids: each id gets a node on
//! first sight, and every pair becomes one edge.
use crate::network::{add_edge, add_node, edge_ends, new_graph, node_ids, MAX_INDEX};
use petgraph::graph::UnGraph;
use std::collections::HashMap;
use vstd::prelude::*;

verus! {

broadcast use vstd::std_specs::hash::group_hash_axioms;

/// Longest edge list that fits a graph indexed by `u32`: even with two new
/// ids per edge, the node count stays below the index limit.
pub const MAX_EDGES: usize = 0x7fff_fffe;

/// `ids` with `x` appended, unless it is there already.
pub open spec fn add_new(ids: Seq<u32>, x: u32) -> Seq<u32> {
    if ids.contains(x) {
        ids
    } else {
        ids.push(x)
    }
}

/// The external ids of `edges` in order of first occurrence, each once.
pub open spec fn first_seen(edges: Seq<(u32, u32)>) -> Seq<u32>
    decreases edges.len(),
{
    if edges.len() == 0 {
        Seq::empty()
    } else {
        let e = edges.last();
        add_new(add_new(first_seen(edges.drop_last()), e.0), e.1)
    }
}

/// `x` is an endpoint of some pair of `edges`.
pub open spec fn appears(edges: Seq<(u32, u32)>, x: u32) -> bool {
    exists|i: int| 0 <= i < edges.len() && ((#[trigger] edges[i]).0 == x || edges[i].1 == x)
}

/// The set of external ids that occur in `edges`.
pub open spec fn ids_in(edges: Seq<(u32, u32)>) -> Set<u32> {
    Set::new(|x: u32| appears(edges, x))
}

/// `g` is the graph built from `edges`: one node per distinct id, in order of
/// first occurrence, and edge `i` joins the nodes of the ids of pair `i`.
pub open spec fn built_from(g: UnGraph<u32, ()>, edges: Seq<(u32, u32)>) -> bool {
    let ids = node_ids(g);
    let ends = edge_ends(g);
    &&& ids == first_seen(edges)
    &&& ends.len() == edges.len()
    &&& forall|i: int|
        0 <= i < edges.len() ==> {
            &&& #[trigger] ends[i].0 < ids.len()
            &&& ends[i].1 < ids.len()
            &&& ids[ends[i].0 as int] == edges[i].0
            &&& ids[ends[i].1 as int] == edges[i].1
        }
}

/// `index` maps each id of `ids` to its position, and holds no other id.
pub open spec fn index_matches(index: Map<u32, usize>, ids: Seq<u32>) -> bool {
    &&& forall|x: u32| #[trigger] index.contains_key(x) <==> ids.contains(x)
    &&& forall|x: u32|
        #[trigger] index.contains_key(x) ==> index[x] < ids.len() && ids[index[x] as int] == x
}

/// Appending a new id keeps the ids distinct and the earlier positions fixed.
proof fn lemma_add_new(ids: Seq<u32>, x: u32)
    requires
        ids.no_duplicates(),
    ensures
        add_new(ids, x).no_duplicates(),
        forall|y: u32| #[trigger] add_new(ids, x).contains(y) <==> (ids.contains(y) || y == x),
        ids.len() <= add_new(ids, x).len() <= ids.len() + 1,
        forall|j: int| 0 <= j < ids.len() ==> #[trigger] add_new(ids, x)[j] == ids[j],
        add_new(ids, x).contains(x),
{
    let r = add_new(ids, x);
    if !ids.contains(x) {
        assert(r[ids.len() as int] == x);
        assert forall|y: u32| #[trigger] r.contains(y) <==> (ids.contains(y) || y == x) by {
            if ids.contains(y) {
                let j = ids.index_of(y);
                assert(r[j] == y);
            }
            if r.contains(y) && y != x {
                let j = r.index_of(y);
                assert(ids[j] == y);
            }
        }
    }
}

/// The ids of `first_seen` are distinct and are exactly those of the edges.
pub proof fn lemma_first_seen(edges: Seq<(u32, u32)>)
    ensures
        first_seen(edges).no_duplicates(),
        forall|x: u32| #[trigger] first_seen(edges).contains(x) <==> appears(edges, x),
        first_seen(edges).len() <= 2 * edges.len(),
    decreases edges.len(),
{
    if edges.len() > 0 {
        let prev = edges.drop_last();
        let e = edges.last();
        lemma_first_seen(prev);
        let a = add_new(first_seen(prev), e.0);
        lemma_add_new(first_seen(prev), e.0);
        lemma_add_new(a, e.1);
        let b = add_new(a, e.1);
        assert forall|x: u32| #[trigger] b.contains(x) <==> appears(edges, x) by {
            if appears(edges, x) {
                let i = choose|i: int|
                    0 <= i < edges.len() && ((#[trigger] edges[i]).0 == x || edges[i].1 == x);
                if i < edges.len() - 1 {
                    assert(prev[i] == edges[i]);
                    assert(appears(prev, x));
                    assert(first_seen(prev).contains(x));
                    assert(a.contains(x));
                } else if x == e.0 {
                    assert(a.contains(x));
                }
                assert(b.contains(x));
            }
            if b.contains(x) {
                assert(a.contains(x) || x == e.1);
                assert(a.contains(x) ==> first_seen(prev).contains(x) || x == e.0);
                if first_seen(prev).contains(x) {
                    assert(appears(prev, x));
                    let i = choose|i: int|
                        0 <= i < prev.len() && ((#[trigger] prev[i]).0 == x || prev[i].1 == x);
                    assert(edges[i] == prev[i]);
                } else if x == e.0 {
                    assert(edges[edges.len() - 1].0 == x);
                } else {
                    assert(edges[edges.len() - 1].1 == x);
                }
            }
        }
    }
}

/// Finds the node of `x`, adding one if `x` is new.
fn resolve(g: &mut UnGraph<u32, ()>, index: &mut HashMap<u32, usize>, x: u32) -> (r: usize)
    requires
        index_matches(old(index)@, node_ids(*old(g))),
        node_ids(*old(g)).no_duplicates(),
        node_ids(*old(g)).len() < MAX_INDEX,
    ensures
        node_ids(*final(g)) == add_new(node_ids(*old(g)), x),
        edge_ends(*final(g)) == edge_ends(*old(g)),
        index_matches(final(index)@, node_ids(*final(g))),
        node_ids(*final(g)).no_duplicates(),
        r < node_ids(*final(g)).len(),
        node_ids(*final(g))[r as int] == x,
{
    match index.get(&x) {
        Some(i) => *i,
        None => {
            let ghost before = node_ids(*g);
            let ghost m0 = index@;
            let i = add_node(g, x);
            index.insert(x, i);
            proof {
                lemma_add_new(before, x);
            }
            assert(!before.contains(x));
            assert forall|y: u32| #[trigger]
                index@.contains_key(y) implies index@[y] < node_ids(*g).len() && node_ids(
                *g,
            )[index@[y] as int] == y by {
                if y != x {
                    assert(m0.contains_key(y));
                }
            }
            i
        },
    }
}

/// Builds the undirected graph of `edges`: each external id becomes a node on
/// its first occurrence, and each pair an edge, parallel edges and self-loops
/// included.
pub fn build_graph(edges: &Vec<(u32, u32)>) -> (g: UnGraph<u32, ()>)
    requires
        edges@.len() <= MAX_EDGES,
    ensures
        built_from(g, edges@),
{
    let mut g = new_graph();
    let mut index: HashMap<u32, usize> = HashMap::new();
    let mut k: usize = 0;
    while k < edges.len()
        invariant
            edges@.len() <= MAX_EDGES,
            k <= edges@.len(),
            node_ids(g) == first_seen(edges@.take(k as int)),
            node_ids(g).no_duplicates(),
            node_ids(g).len() <= 2 * k,
            index_matches(index@, node_ids(g)),
            edge_ends(g).len() == k,
            forall|i: int|
                0 <= i < k ==> {
                    &&& #[trigger] edge_ends(g)[i].0 < node_ids(g).len()
                    &&& edge_ends(g)[i].1 < node_ids(g).len()
                    &&& node_ids(g)[edge_ends(g)[i].0 as int] == edges@[i].0
                    &&& node_ids(g)[edge_ends(g)[i].1 as int] == edges@[i].1
                },
        decreases edges@.len() - k,
    {
        let (x, y) = edges[k];
        let ghost ids0 = node_ids(g);
        let a = resolve(&mut g, &mut index, x);
        let ghost ids1 = node_ids(g);
        let b = resolve(&mut g, &mut index, y);
        let ghost ids2 = node_ids(g);
        assert(ids1.len() >= ids0.len() && ids2.len() >= ids1.len());
        assert forall|j: int| 0 <= j < ids0.len() implies ids2[j] == ids0[j] by {
            assert(ids1[j] == ids0[j]);
        }
        assert(ids2[a as int] == x) by {
            assert(ids1[a as int] == x);
        }
        add_edge(&mut g, a, b);
        assert(edges@.take(k + 1).drop_last() == edges@.take(k as int));
        k = k + 1;
    }
    assert(edges@.take(k as int) == edges@);
    g
}

/// The graph built from an edge list has one node for each distinct external id
/// of the list, and no other.
pub proof fn lemma_one_node_per_id(edges: Seq<(u32, u32)>, g: UnGraph<u32, ()>)
    requires
        built_from(g, edges),
    ensures
        node_ids(g).to_set() == ids_in(edges),
        node_ids(g).len() == ids_in(edges).len(),
{
    lemma_first_seen(edges);
    assert(node_ids(g).to_set() =~= ids_in(edges));
    node_ids(g).unique_seq_to_set();
}

/// Building the same edge list twice gives the same node for every id and the
/// same edges in the same order.
pub proof fn lemma_build_deterministic(
    edges: Seq<(u32, u32)>,
    g1: UnGraph<u32, ()>,
    g2: UnGraph<u32, ()>,
)
    requires
        built_from(g1, edges),
        built_from(g2, edges),
    ensures
        node_ids(g1) == node_ids(g2),
        edge_ends(g1) == edge_ends(g2),
{
    lemma_first_seen(edges);
    let ids = node_ids(g1);
    assert forall|i: int| 0 <= i < edges.len() implies #[trigger] edge_ends(g1)[i] == edge_ends(
        g2,
    )[i] by {
        let (a1, b1) = edge_ends(g1)[i];
        let (a2, b2) = edge_ends(g2)[i];
        assert(ids[a1 as int] == ids[a2 as int]);
        assert(ids[b1 as int] == ids[b2 as int]);
    }
    assert(edge_ends(g1) =~= edge_ends(g2));
}

} // verus!
