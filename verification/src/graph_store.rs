//! The adjacency store: a thin, trusted boundary around `petgraph`'s
//! `Graph`, which holds the undirected adjacency structure the searches
//! traverse.
//!
//! The store keeps one `u64` node weight (the node id) per vertex and one
//! `(edge id, cost)` pair per arc. Its contents are named by two
//! uninterpreted sequences, `graph_nodes` (node weights in index order) and
//! `graph_arcs` (arcs in insertion order); every wrapper states over those
//! names what `petgraph`'s source shows.
use petgraph::visit::EdgeRef;
use vstd::prelude::*;

verus! {

/// Declares `petgraph::graph::Graph`, the adjacency structure, as an opaque
/// outside type.
#[verifier::external_type_specification]
#[verifier::external_body]
#[verifier::reject_recursive_types(N)]
#[verifier::reject_recursive_types(E)]
#[verifier::reject_recursive_types(Ty)]
#[verifier::reject_recursive_types(Ix)]
pub struct ExGraph<N, E, Ty, Ix>(petgraph::graph::Graph<N, E, Ty, Ix>);

/// Declares `petgraph::Undirected`, the edge-type marker of an undirected
/// graph, as an opaque outside type.
#[verifier::external_type_specification]
#[verifier::external_body]
pub struct ExUndirected(petgraph::Undirected);

/// The undirected graph the searches run on: node weights are node ids,
/// edge weights are `(edge id, cost in microseconds)` pairs.
pub type UnGraph64 = petgraph::graph::Graph<u64, (u64, u64), petgraph::Undirected, u32>;

/// A stored arc: the two endpoint vertex indices, the edge id and the cost.
pub type StoredArc = (usize, usize, u64, u64);

/// The node weights held by the store, in vertex-index order.
pub uninterp spec fn graph_nodes(g: UnGraph64) -> Seq<u64>;

/// The arcs held by the store, in insertion order.
pub uninterp spec fn graph_arcs(g: UnGraph64) -> Seq<StoredArc>;

/// Whether vertex `a` is an endpoint of the arc `e`.
pub open spec fn arc_touches(e: StoredArc, a: int) -> bool {
    e.0 == a || e.1 == a
}

/// The adjacency entry that arc `e` contributes at vertex `a`: the opposite
/// endpoint, the edge id and the cost.
pub open spec fn arc_entry(e: StoredArc, a: int) -> (usize, u64, u64) {
    if e.0 == a {
        (e.1, e.2, e.3)
    } else {
        (e.0, e.2, e.3)
    }
}

/// Relies on `petgraph::graph::Graph::new_undirected`: a graph with no nodes
/// and no edges.
#[verifier::external_body]
pub(crate) fn graph_new() -> (g: UnGraph64)
    ensures
        graph_nodes(g) == Seq::<u64>::empty(),
        graph_arcs(g) == Seq::<StoredArc>::empty(),
{
    petgraph::graph::Graph::new_undirected()
}

/// Relies on `petgraph::graph::Graph::add_node`: appends one vertex and
/// returns its index, which is the previous vertex count. `petgraph` panics
/// when the vertex count reaches the index type's maximum, so that case is
/// excluded here.
#[verifier::external_body]
pub(crate) fn graph_add_node(g: &mut UnGraph64, id: u64) -> (idx: usize)
    requires
        graph_nodes(*old(g)).len() < 0xFFFF_FFFF,
    ensures
        graph_nodes(*final(g)) == graph_nodes(*old(g)).push(id),
        graph_arcs(*final(g)) == graph_arcs(*old(g)),
        idx == graph_nodes(*old(g)).len(),
{
    g.add_node(id).index()
}

/// Relies on `petgraph::graph::Graph::add_edge`: appends one arc between two
/// existing vertices and returns its index, which is the previous arc count.
/// `petgraph` panics on an out-of-bounds vertex or when the arc count
/// reaches the index type's maximum, so those cases are excluded here.
#[verifier::external_body]
pub(crate) fn graph_add_edge(g: &mut UnGraph64, a: usize, b: usize, edge_id: u64, cost: u64) -> (idx:
    usize)
    requires
        a < graph_nodes(*old(g)).len(),
        b < graph_nodes(*old(g)).len(),
        graph_arcs(*old(g)).len() < 0xFFFF_FFFF,
    ensures
        graph_nodes(*final(g)) == graph_nodes(*old(g)),
        graph_arcs(*final(g)) == graph_arcs(*old(g)).push((a, b, edge_id, cost)),
        idx == graph_arcs(*old(g)).len(),
{
    g.add_edge(
        petgraph::graph::NodeIndex::new(a),
        petgraph::graph::NodeIndex::new(b),
        (edge_id, cost),
    ).index()
}

/// Relies on `petgraph::graph::Graph::node_count`: the number of vertices.
#[verifier::external_body]
pub(crate) fn graph_node_count(g: &UnGraph64) -> (n: usize)
    ensures
        n == graph_nodes(*g).len(),
{
    g.node_count()
}

/// Relies on `petgraph::graph::Graph::edge_count`: the number of arcs.
#[verifier::external_body]
pub(crate) fn graph_edge_count(g: &UnGraph64) -> (n: usize)
    ensures
        n == graph_arcs(*g).len(),
{
    g.edge_count()
}

/// Relies on `petgraph::graph::Graph::edges`: for an undirected graph it
/// yields every arc incident to the given vertex exactly once (self-loops
/// once), with `target()` rewritten to be the opposite endpoint. The order
/// of the entries is not relied upon: the contract only says that every
/// returned entry is an incident arc's entry and that every incident arc is
/// represented.
#[verifier::external_body]
pub(crate) fn graph_incident(g: &UnGraph64, a: usize) -> (r: Vec<(usize, u64, u64)>)
    requires
        a < graph_nodes(*g).len(),
    ensures
        forall|j: int|
            0 <= j < r@.len() ==> exists|k: int|
                0 <= k < graph_arcs(*g).len() && arc_touches(graph_arcs(*g)[k], a as int) && (
                #[trigger] r@[j]) == arc_entry(graph_arcs(*g)[k], a as int),
        forall|k: int|
            0 <= k < graph_arcs(*g).len() && arc_touches(#[trigger] graph_arcs(*g)[k], a as int)
                ==> exists|j: int|
                0 <= j < r@.len() && r@[j] == arc_entry(graph_arcs(*g)[k], a as int),
{
    let mut out: Vec<(usize, u64, u64)> = Vec::new();
    for e in g.edges(petgraph::graph::NodeIndex::new(a)) {
        out.push((e.target().index(), e.weight().0, e.weight().1));
    }
    out
}

} // verus!
