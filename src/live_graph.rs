//! The undirected graph of open passages, held in a `petgraph` graph map.
//!
//! Its contents are described by two names: the set of nodes it holds and
//! the set of edges it holds, each edge written with its smaller end first
//! (the order in which the graph map keys its undirected edges).
use petgraph::graphmap::{GraphMap, UnGraphMap};
use petgraph::Undirected;
use std::hash::BuildHasher;
use vstd::prelude::*;

use crate::grid::connected;

verus! {

#[verifier::external_type_specification]
#[verifier::external_body]
#[verifier::reject_recursive_types(N)]
#[verifier::reject_recursive_types(E)]
#[verifier::reject_recursive_types(Ty)]
#[verifier::reject_recursive_types(S)]
pub struct ExGraphMap<N, E, Ty, S>(GraphMap<N, E, Ty, S>) where S: BuildHasher;

#[verifier::external_type_specification]
#[verifier::external_body]
pub struct ExUndirected(Undirected);

/// The nodes that a graph map holds.
pub uninterp spec fn graph_nodes(g: UnGraphMap<u8, u8>) -> Set<u8>;

/// The edges that a graph map holds, each as (smaller end, larger end).
pub uninterp spec fn graph_edges(g: UnGraphMap<u8, u8>) -> Set<(u8, u8)>;

/// The nodes named by the pairs of `edges`.
pub open spec fn endpoints(edges: Seq<(u8, u8)>) -> Set<u8> {
    Set::new(|n: u8| exists|k: int| 0 <= k < edges.len() && (#[trigger] edges[k].0 == n || edges[k].1 == n))
}

/// Relies on `GraphMap::from_edges`, which adds each pair in turn with
/// `add_edge` and a default weight: the nodes are the pairs' ends and the
/// edges are the pairs.
#[verifier::external_body]
pub(crate) fn graph_from_edges(edges: &Vec<(u8, u8)>) -> (g: UnGraphMap<u8, u8>)
    requires
        forall|k: int| 0 <= k < edges@.len() ==> (#[trigger] edges@[k]).0 < edges@[k].1,
    ensures
        graph_nodes(g) == endpoints(edges@),
        graph_edges(g) == edges@.to_set(),
{
    UnGraphMap::from_edges(edges)
}

/// Relies on `GraphMap::remove_edge`: it drops the edge keyed by `(a, b)`
/// and leaves the nodes in place.
#[verifier::external_body]
pub(crate) fn graph_remove_edge(g: &mut UnGraphMap<u8, u8>, a: u8, b: u8)
    requires
        a < b,
    ensures
        graph_nodes(*final(g)) == graph_nodes(*old(g)),
        graph_edges(*final(g)) == graph_edges(*old(g)).remove((a, b)),
{
    g.remove_edge(a, b);
}

/// Relies on `GraphMap::add_edge`: it inserts the edge keyed by `(a, b)`
/// and both of its ends as nodes.
#[verifier::external_body]
pub(crate) fn graph_add_edge(g: &mut UnGraphMap<u8, u8>, a: u8, b: u8, weight: u8)
    requires
        a < b,
    ensures
        graph_nodes(*final(g)) == graph_nodes(*old(g)).insert(a).insert(b),
        graph_edges(*final(g)) == graph_edges(*old(g)).insert((a, b)),
{
    g.add_edge(a, b, weight);
}

/// Relies on `petgraph::algo::connected_components`, which counts the
/// connected components of the graph: the count is one exactly when the
/// graph has a node and every node reaches every other.
#[verifier::external_body]
pub(crate) fn graph_component_count(g: &UnGraphMap<u8, u8>) -> (r: usize)
    ensures
        r == 1 <==> (graph_nodes(*g) != Set::<u8>::empty() && connected(
            graph_nodes(*g),
            graph_edges(*g),
        )),
{
    petgraph::algo::connected_components(g)
}

/// Relies on `GraphMap::node_count`: the number of nodes held.
#[verifier::external_body]
pub(crate) fn graph_node_count(g: &UnGraphMap<u8, u8>) -> (r: usize)
    ensures
        r == graph_nodes(*g).len(),
{
    g.node_count()
}

/// Relies on `GraphMap::edge_count`: the number of edges held.
#[verifier::external_body]
pub(crate) fn graph_edge_count(g: &UnGraphMap<u8, u8>) -> (r: usize)
    ensures
        r == graph_edges(*g).len(),
{
    g.edge_count()
}

} // verus!
