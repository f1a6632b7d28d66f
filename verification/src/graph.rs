//! The road graph: a `petgraph` store together with the table that maps each
//! external label to its node index.

use vstd::prelude::*;
use std::collections::HashMap;
use petgraph::graph::Graph;
use petgraph::Undirected;
use crate::backend::{
    add_edge, add_node, count_components, edge_count, edge_ends, empty_graph, hop_distances,
    incident_edge_list, label_at, neighbor_list, node_count, node_labels,
};
use crate::model::{
    as_ints, component_count, connected, degree, edges_in_range, is_distance,
    lemma_neighbors_in_range, neighbors, Edges,
};

verus! {

broadcast use vstd::std_specs::hash::group_hash_axioms;

/// An undirected multigraph whose nodes carry unique external labels.
pub struct RoadGraph {
    store: Graph<u32, (), Undirected, u32>,
    index: HashMap<u32, usize>,
}

impl RoadGraph {
    /// The label of each node, by node index.
    pub closed spec fn labels(&self) -> Seq<u32> {
        node_labels(self.store)
    }

    /// The endpoints of each edge, in insertion order.
    pub closed spec fn edges(&self) -> Edges {
        edge_ends(self.store)
    }

    /// The label table: the node index of each label.
    pub closed spec fn index_table(&self) -> Map<u32, usize> {
        self.index@
    }

    /// The number of nodes, as a mathematical integer.
    pub open spec fn order(&self) -> int {
        self.labels().len() as int
    }

    /// The representation invariant: the store stays within the index range
    /// of its backend, every edge joins two existing nodes, no label occurs
    /// twice, and the label table maps exactly the labels in use, each to the
    /// node that carries it. Every constructor establishes it and every
    /// method preserves it.
    pub open spec fn wf(&self) -> bool {
        &&& self.labels().len() <= u32::MAX
        &&& self.edges().len() <= u32::MAX
        &&& edges_in_range(self.edges(), self.order())
        &&& self.labels().no_duplicates()
        &&& forall|l: u32| #[trigger]
            self.index_table().contains_key(l) <==> self.labels().contains(l)
        &&& forall|l: u32| #[trigger]
            self.index_table().contains_key(l) ==> self.index_table()[l] < self.labels().len()
                && self.labels()[self.index_table()[l] as int] == l
    }

    /// A graph without nodes and edges.
    pub fn new() -> (g: RoadGraph)
        ensures
            g.wf(),
            g.labels() == Seq::<u32>::empty(),
            g.edges() == Seq::<(int, int)>::empty(),
    {
        RoadGraph { store: empty_graph(), index: HashMap::new() }
    }

    /// The number of nodes.
    pub fn node_count(&self) -> (n: usize)
        ensures
            n == self.labels().len(),
    {
        node_count(&self.store)
    }

    /// The number of edges.
    pub fn edge_count(&self) -> (n: usize)
        ensures
            n == self.edges().len(),
    {
        edge_count(&self.store)
    }
}


impl RoadGraph {
    /// The node index of `label`, if a node carries it.
    pub fn index_of(&self, label: u32) -> (found: Option<usize>)
        requires
            self.wf(),
        ensures
            match found {
                Some(i) => i < self.labels().len() && self.labels()[i as int] == label,
                None => !self.labels().contains(label),
            },
    {
        assert(self.index_table() == self.index@);
        match self.index.get(&label) {
            Some(i) => {
                assert(self.index_table().contains_key(label));
                Some(*i)
            },
            None => {
                assert(!self.index_table().contains_key(label));
                None
            },
        }
    }

    /// The label of node `node`, if there is such a node.
    pub fn label(&self, node: usize) -> (found: Option<u32>)
        ensures
            found == if node < self.labels().len() {
                Some(self.labels()[node as int])
            } else {
                None
            },
    {
        if node < node_count(&self.store) {
            Some(label_at(&self.store, node))
        } else {
            None
        }
    }

    /// Looks up the node labelled `label`, creating it first if no node
    /// carries that label yet; a new node gets the next free index. Returns
    /// `None`, and changes nothing, only if a new node is needed and the
    /// graph already holds `u32::MAX` nodes.
    pub fn add_node(&mut self, label: u32) -> (node: Option<usize>)
        requires
            old(self).wf(),
        ensures
            final(self).wf(),
            final(self).edges() == old(self).edges(),
            old(self).labels().contains(label) ==> final(self).labels() == old(self).labels()
                && node is Some && old(self).labels()[node->0 as int] == label,
            !old(self).labels().contains(label) && old(self).labels().len() < u32::MAX ==> node
                == Some(old(self).labels().len() as usize) && final(self).labels() == old(
                self,
            ).labels().push(label),
            !old(self).labels().contains(label) && old(self).labels().len() >= u32::MAX ==> node
                is None && final(self).labels() == old(self).labels(),
            node matches Some(i) ==> i < final(self).labels().len() && final(self).labels()[i as int]
                == label,
    {
        assert(self.index_table() == self.index@);
        match self.index.get(&label) {
            Some(i) => {
                assert(self.index_table().contains_key(label));
                Some(*i)
            },
            None => {
                assert(!self.index_table().contains_key(label));
                if node_count(&self.store) >= u32::MAX as usize {
                    None
                } else {
                    let ghost before = self.labels();
                    let ghost table = self.index_table();
                    let i = add_node(&mut self.store, label);
                    self.index.insert(label, i);
                    proof {
                        let after = self.labels();
                        assert(after == before.push(label));
                        assert forall|l: u32| #[trigger]
                            self.index_table().contains_key(l) <==> after.contains(l) by {
                            if l == label {
                                assert(after[before.len() as int] == label);
                            } else {
                                if table.contains_key(l) {
                                    assert(before.contains(l));
                                    let k = choose|k: int| 0 <= k < before.len() && before[k] == l;
                                    assert(after[k] == l);
                                }
                                if after.contains(l) {
                                    let k = choose|k: int| 0 <= k < after.len() && after[k] == l;
                                    assert(before[k] == l);
                                }
                            }
                        }
                        assert forall|a: int, b: int|
                            0 <= a < after.len() && 0 <= b < after.len() && a != b implies after[a]
                            != after[b] by {
                            if a == before.len() {
                                assert(before.contains(before[b]));
                            } else if b == before.len() {
                                assert(before.contains(before[a]));
                            }
                        }
                    }
                    Some(i)
                }
            },
        }
    }

    /// Adds an undirected edge between the nodes `a` and `b`. Returns whether
    /// the edge was added: it is not, and nothing changes, if `a` or `b` is
    /// not a node or the graph already holds `u32::MAX` edges.
    pub fn add_edge(&mut self, a: usize, b: usize) -> (added: bool)
        requires
            old(self).wf(),
        ensures
            final(self).wf(),
            final(self).labels() == old(self).labels(),
            added == (a < old(self).labels().len() && b < old(self).labels().len() && old(
                self,
            ).edges().len() < u32::MAX),
            final(self).edges() == if added {
                old(self).edges().push((a as int, b as int))
            } else {
                old(self).edges()
            },
    {
        let n = node_count(&self.store);
        if a < n && b < n && edge_count(&self.store) < u32::MAX as usize {
            let ghost before = self.edges();
            let ghost table = self.index_table();
            add_edge(&mut self.store, a, b);
            proof {
                let after = self.edges();
                assert(self.index_table() == table);
                assert forall|i: int| 0 <= i < after.len() implies 0 <= (#[trigger] after[i]).0
                    < self.order() && 0 <= after[i].1 < self.order() by {
                    if i < before.len() {
                        assert(after[i] == before[i]);
                    }
                }
            }
            true
        } else {
            false
        }
    }

    /// The neighbor list of `node`: the far endpoint of each incident edge.
    /// It is empty for an index that is not a node.
    pub fn neighbors(&self, node: usize) -> (list: Vec<usize>)
        requires
            self.wf(),
        ensures
            as_ints(list@) == neighbors(self.edges(), node as int),
            forall|k: int| 0 <= k < list.len() ==> #[trigger] list[k] < self.labels().len(),
    {
        proof {
            lemma_neighbors_in_range(self.edges(), self.order(), node as int);
        }
        if node < node_count(&self.store) {
            let list = neighbor_list(&self.store, node);
            assert forall|k: int| 0 <= k < list.len() implies #[trigger] list[k]
                < self.labels().len() by {
                assert(as_ints(list@)[k] == list[k] as int);
            }
            list
        } else {
            let list: Vec<usize> = Vec::new();
            assert(as_ints(list@) =~= neighbors(self.edges(), node as int));
            list
        }
    }

    /// The degree of `node`: the number of edges incident to it.
    pub fn degree(&self, node: usize) -> (d: usize)
        requires
            self.wf(),
        ensures
            d == degree(self.edges(), node as int),
    {
        proof {
            lemma_neighbors_in_range(self.edges(), self.order(), node as int);
        }
        if node < node_count(&self.store) {
            let list = incident_edge_list(&self.store, node);
            assert(as_ints(list@).len() == list.len());
            list.len()
        } else {
            0
        }
    }

    /// The number of connected components.
    pub(crate) fn count_components(&self) -> (count: usize)
        requires
            self.wf(),
        ensures
            count == component_count(self.edges(), self.order()),
    {
        count_components(&self.store)
    }

    /// The hop distance from `start` to every node that can be reached from
    /// it: one entry `(node, distance)` for each such node, in no particular
    /// order.
    pub(crate) fn hop_distances(&self, start: usize) -> (found: Vec<(usize, u32)>)
        requires
            self.wf(),
            start < self.labels().len(),
        ensures
            forall|i: int|
                0 <= i < found.len() ==> is_distance(
                    self.edges(),
                    self.order(),
                    start as int,
                    (#[trigger] found[i]).0 as int,
                    found[i].1 as nat,
                ),
            forall|i: int, j: int|
                0 <= i < j < found.len() ==> (#[trigger] found[i]).0 != (#[trigger] found[j]).0,
            forall|v: int| #[trigger]
                connected(self.edges(), self.order(), start as int, v) ==> exists|i: int|
                    0 <= i < found.len() && (#[trigger] found[i]).0 == v,
    {
        hop_distances(&self.store, start)
    }
}

} // verus!
