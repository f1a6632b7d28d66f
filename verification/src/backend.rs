//! The graph store and the graph algorithms come from `petgraph`. This module
//! is the only place that touches it: it names what a stored graph holds and
//! states, without proof, what each `petgraph` call does to that content.

use vstd::prelude::*;
use petgraph::algo::{connected_components, dijkstra};
use petgraph::graph::{Graph, NodeIndex};
use petgraph::visit::EdgeRef;
use petgraph::Undirected;
use crate::model::{as_ints, component_count, connected, incident_edges, is_distance, neighbors};

verus! {

#[verifier::external_type_specification]
#[verifier::external_body]
#[verifier::reject_recursive_types(N)]
#[verifier::reject_recursive_types(E)]
#[verifier::reject_recursive_types(Ty)]
#[verifier::reject_recursive_types(Ix)]
pub struct ExGraph<N, E, Ty, Ix>(Graph<N, E, Ty, Ix>);

#[verifier::external_type_specification]
#[verifier::external_body]
pub struct ExUndirected(Undirected);

/// The node weights of a stored graph, by node index.
pub uninterp spec fn node_labels(g: Graph<u32, (), Undirected, u32>) -> Seq<u32>;

/// The endpoints of the edges of a stored graph, by edge index.
pub uninterp spec fn edge_ends(g: Graph<u32, (), Undirected, u32>) -> Seq<(int, int)>;

/// `Graph::new_undirected`: a graph without nodes and edges.
#[verifier::external_body]
pub(crate) fn empty_graph() -> (g: Graph<u32, (), Undirected, u32>)
    ensures
        node_labels(g) == Seq::<u32>::empty(),
        edge_ends(g) == Seq::<(int, int)>::empty(),
{
    Graph::new_undirected()
}

/// `Graph::node_count`: the number of nodes.
#[verifier::external_body]
pub(crate) fn node_count(g: &Graph<u32, (), Undirected, u32>) -> (n: usize)
    ensures
        n == node_labels(*g).len(),
{
    g.node_count()
}

/// `Graph::edge_count`: the number of edges.
#[verifier::external_body]
pub(crate) fn edge_count(g: &Graph<u32, (), Undirected, u32>) -> (n: usize)
    ensures
        n == edge_ends(*g).len(),
{
    g.edge_count()
}

/// `Graph::add_node`: appends a node with the given weight and returns its
/// index, the previous node count. It panics once the node count has reached
/// `u32::MAX`, which the precondition excludes. Edges are untouched.
#[verifier::external_body]
pub(crate) fn add_node(g: &mut Graph<u32, (), Undirected, u32>, label: u32) -> (index: usize)
    requires
        node_labels(*old(g)).len() < u32::MAX,
    ensures
        index == node_labels(*old(g)).len(),
        node_labels(*final(g)) == node_labels(*old(g)).push(label),
        edge_ends(*final(g)) == edge_ends(*old(g)),
{
    g.add_node(label).index()
}

/// `Graph::add_edge`: appends an edge from `a` to `b`. It panics if an
/// endpoint is not a node or once the edge count has reached `u32::MAX`;
/// the precondition excludes both. Nodes are untouched.
#[verifier::external_body]
pub(crate) fn add_edge(g: &mut Graph<u32, (), Undirected, u32>, a: usize, b: usize)
    requires
        a < node_labels(*old(g)).len(),
        b < node_labels(*old(g)).len(),
        edge_ends(*old(g)).len() < u32::MAX,
    ensures
        node_labels(*final(g)) == node_labels(*old(g)),
        edge_ends(*final(g)) == edge_ends(*old(g)).push((a as int, b as int)),
{
    g.add_edge(NodeIndex::new(a), NodeIndex::new(b), ());
}

/// Indexing a `Graph` by a `NodeIndex`: the weight of that node. It panics if
/// there is no such node, which the precondition excludes.
#[verifier::external_body]
pub(crate) fn label_at(g: &Graph<u32, (), Undirected, u32>, node: usize) -> (label: u32)
    requires
        node < node_labels(*g).len(),
    ensures
        label == node_labels(*g)[node as int],
{
    g[NodeIndex::new(node)]
}

/// `Graph::neighbors` on an undirected graph: it walks the node's list of
/// outgoing edges, newest first, yielding each target, then its list of
/// incoming edges, newest first, yielding each source and skipping
/// self-loops.
#[verifier::external_body]
pub(crate) fn neighbor_list(g: &Graph<u32, (), Undirected, u32>, node: usize) -> (list: Vec<usize>)
    requires
        node < node_labels(*g).len(),
    ensures
        as_ints(list@) == neighbors(edge_ends(*g), node as int),
{
    g.neighbors(NodeIndex::new(node)).map(|v| v.index()).collect()
}

/// `Graph::edges` on an undirected graph: the same traversal as
/// `Graph::neighbors`, yielding the edges themselves; each is handed out as
/// its edge index.
#[verifier::external_body]
pub(crate) fn incident_edge_list(g: &Graph<u32, (), Undirected, u32>, node: usize) -> (list: Vec<
    usize,
>)
    requires
        node < node_labels(*g).len(),
    ensures
        as_ints(list@) == incident_edges(edge_ends(*g), node as int),
{
    g.edges(NodeIndex::new(node)).map(|e| e.id().index()).collect()
}

/// `petgraph::algo::connected_components`: the number of connected
/// components of the graph.
#[verifier::external_body]
pub(crate) fn count_components(g: &Graph<u32, (), Undirected, u32>) -> (count: usize)
    ensures
        count == component_count(edge_ends(*g), node_labels(*g).len() as int),
{
    connected_components(g)
}

/// The cost that the shortest-path search charges for every edge.
pub fn unit_cost() -> (cost: u32)
    ensures
        cost == 1,
{
    1
}

/// `petgraph::algo::dijkstra` from `start`, without a goal and with every
/// edge at unit cost: a map from each node reachable from `start` to the
/// length of a shortest path to it. The map is handed out as its entries, in
/// the order in which the map yields them, which nothing is said about.
/// The search panics if `start` is not a node; the precondition excludes it.
#[verifier::external_body]
pub(crate) fn hop_distances(g: &Graph<u32, (), Undirected, u32>, start: usize) -> (found: Vec<
    (usize, u32),
>)
    requires
        start < node_labels(*g).len(),
    ensures
        forall|i: int|
            0 <= i < found.len() ==> is_distance(
                edge_ends(*g),
                node_labels(*g).len() as int,
                start as int,
                (#[trigger] found[i]).0 as int,
                found[i].1 as nat,
            ),
        forall|i: int, j: int|
            0 <= i < j < found.len() ==> (#[trigger] found[i]).0 != (#[trigger] found[j]).0,
        forall|v: int| #[trigger]
            connected(edge_ends(*g), node_labels(*g).len() as int, start as int, v)
                ==> exists|i: int| 0 <= i < found.len() && (#[trigger] found[i]).0 == v,
{
    let scores = dijkstra(g, NodeIndex::new(start), None, |_| unit_cost());
    scores.into_iter().map(|(v, d)| (v.index(), d)).collect()
}

} // verus!
