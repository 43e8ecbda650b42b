//! The structural graph: an undirected `petgraph` graph that holds one node
//! for each handle and one weighted edge for each logical connection.
//!
//! Verus does not look inside it. What it holds is named by two functions,
//! and each operation states its effect over them.

use petgraph::graph::Graph;
use petgraph::graph::NodeIndex;
use petgraph::visit::EdgeRef;
use petgraph::Undirected;
use vstd::prelude::*;
use crate::models::walks::{distance_is, reachable, unit_weights, Link};

verus! {

/// `petgraph::graph::Graph`, declared so that it can stand in fields and
/// signatures. Nothing is known of what is inside a value.
#[verifier::external_type_specification]
#[verifier::external_body]
#[verifier::reject_recursive_types(N)]
#[verifier::reject_recursive_types(E)]
#[verifier::reject_recursive_types(Ty)]
#[verifier::reject_recursive_types(Ix)]
pub struct ExGraph<N, E, Ty, Ix>(Graph<N, E, Ty, Ix>);

/// `petgraph::Undirected`, the marker of graphs whose edges have no
/// direction.
#[verifier::external_type_specification]
#[verifier::external_body]
pub struct ExUndirected(Undirected);

/// The structural graph of this library.
pub type Core = Graph<(), u32, Undirected, u32>;

/// The largest number of nodes, and of edges, that the structural graph
/// takes: its indices are 32 bits wide and the last value is set aside.
pub const CORE_LIMIT: usize = 0xffff_ffff;

/// The number of nodes in the structural graph. Their handles are the
/// numbers below it.
pub uninterp spec fn core_node_count(g: Core) -> nat;

/// The edges of the structural graph in the order in which they were added:
/// the position of an edge is its handle.
pub uninterp spec fn core_links(g: Core) -> Seq<Link>;

/// `Graph::new_undirected`: a graph without nodes and edges.
#[verifier::external_body]
pub(crate) fn core_new() -> (g: Core)
    ensures
        core_node_count(g) == 0,
        core_links(g) == Seq::<Link>::empty(),
{
    Graph::new_undirected()
}

/// `Graph::edge_count`.
#[verifier::external_body]
pub(crate) fn core_edges(g: &Core) -> (n: usize)
    ensures
        n == core_links(*g).len(),
{
    g.edge_count()
}

/// `Graph::add_node`: the new node gets the next handle, and the edges stay.
/// The call panics when the graph is full, which `requires` leaves out.
#[verifier::external_body]
pub(crate) fn core_add_node(g: &mut Core) -> (handle: usize)
    requires
        core_node_count(*old(g)) < CORE_LIMIT,
    ensures
        handle == core_node_count(*old(g)),
        core_node_count(*final(g)) == core_node_count(*old(g)) + 1,
        core_links(*final(g)) == core_links(*old(g)),
{
    g.add_node(()).index()
}

/// `Graph::add_edge`: the new edge gets the next edge handle and comes last,
/// and the nodes stay. The call panics when an end is no node of the graph or
/// when the graph is full, which `requires` leaves out.
#[verifier::external_body]
pub(crate) fn core_add_edge(g: &mut Core, a: usize, b: usize, weight: u32) -> (handle: usize)
    requires
        a < core_node_count(*old(g)),
        b < core_node_count(*old(g)),
        core_links(*old(g)).len() < CORE_LIMIT,
    ensures
        handle == core_links(*old(g)).len(),
        core_links(*final(g)) == core_links(*old(g)).push((a as int, b as int, weight)),
        core_node_count(*final(g)) == core_node_count(*old(g)),
{
    g.add_edge(NodeIndex::new(a), NodeIndex::new(b), weight).index()
}

/// `Graph::raw_edges`: the edges in the order of their handles, each as its
/// two ends and its weight.
#[verifier::external_body]
pub(crate) fn core_link_list(g: &Core) -> (list: Vec<(usize, usize, u32)>)
    ensures
        list@.len() == core_links(*g).len(),
        forall|e: int| 0 <= e < list@.len() ==> (#[trigger] list@[e]).0 == core_links(*g)[e].0
            && list@[e].1 == core_links(*g)[e].1 && list@[e].2 == core_links(*g)[e].2,
{
    g.raw_edges().iter().map(|e| (e.source().index(), e.target().index(), e.weight)).collect()
}

/// `petgraph::algo::dijkstra` from `from` with the goal `to`, each edge
/// costing its weight; the scores that it returns, each with the handle that
/// it belongs to, in no particular order.
///
/// The algorithm computes the length of a shortest path to the goal and stops
/// there; a node that cannot be reached gets no score. Of the scores of other
/// nodes nothing is claimed. With unit weights and fewer than 2^32 nodes no
/// sum leaves the range of `u32`.
#[verifier::external_body]
pub(crate) fn core_scores(g: &Core, from: usize, to: usize) -> (scores: Vec<(usize, u32)>)
    requires
        from < core_node_count(*g),
        to < core_node_count(*g),
        core_node_count(*g) <= CORE_LIMIT,
        unit_weights(core_links(*g)),
    ensures
        forall|i: int| 0 <= i < scores@.len() && (#[trigger] scores@[i]).0 == to ==> distance_is(
            core_links(*g),
            from as int,
            to as int,
            scores@[i].1 as int,
        ),
        reachable(core_links(*g), from as int, to as int) ==> exists|i: int|
            0 <= i < scores@.len() && (#[trigger] scores@[i]).0 == to,
{
    let scores = petgraph::algo::dijkstra(g, NodeIndex::new(from), Some(NodeIndex::new(to)), |e| *e.weight());
    scores.into_iter().map(|(node, score)| (node.index(), score)).collect()
}

} // verus!
