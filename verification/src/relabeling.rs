//! The distance-gap analysis looks at node indices only, and at those only
//! through the index-gap relation. This module proves that: renumbering the
//! nodes in a way that keeps index gaps leaves the totals unchanged.

use vstd::prelude::*;
use crate::analysis::{
    far_candidate, far_count, far_count_among, far_total, index_gapped, near_count, near_set,
    near_total, reaches_far,
};
use crate::counting::{
    count_below, indices_where, is_renumbering, lemma_count_is_cardinality,
    lemma_count_pointwise_eq, lemma_count_renumbered, lemma_sum_renumbered,
};
use crate::model::{
    degree, edges_in_range, incident_edges, incoming_edges, lemma_incident_edges,
    lemma_neighbors_in_range, neighbors, other_end, outgoing_edges, Edges,
};

verus! {

/// The edges with every endpoint `v` replaced by `p(v)`.
pub open spec fn renumbered(edges: Edges, p: spec_fn(int) -> int) -> Edges {
    edges.map_values(|e: (int, int)| (p(e.0), p(e.1)))
}

/// Renumbering by `p` keeps index gaps among the nodes `0 .. n`: two nodes
/// are index-gapped after it exactly if they were before.
pub open spec fn keeps_gaps(n: int, p: spec_fn(int) -> int) -> bool {
    forall|a: int, b: int|
        0 <= a < n && 0 <= b < n ==> index_gapped(#[trigger] p(a), #[trigger] p(b))
            == index_gapped(a, b)
}

/// The test that the distance-1 count of `v` applies to a node `u`: it is a
/// neighbor of `v` and index-gapped relative to it.
pub open spec fn near_test(edges: Edges, v: int) -> spec_fn(int) -> bool {
    |u: int| neighbors(edges, v).contains(u) && index_gapped(u, v)
}

/// The distance-1 count of a node counts nodes, each at most once: it is the
/// number of nodes that are index-gapped neighbors, however many edges lead
/// to them, and so no more than the degree.
pub proof fn lemma_near_count_counts_nodes(edges: Edges, n: nat, v: int)
    requires
        edges_in_range(edges, n as int),
    ensures
        near_set(edges, v).finite(),
        near_count(edges, v) == count_below(n, near_test(edges, v)),
        near_count(edges, v) <= degree(edges, v),
{
    lemma_neighbors_in_range(edges, n as int, v);
    lemma_count_is_cardinality(n, near_test(edges, v));
    let list = neighbors(edges, v);
    assert forall|u: int| near_set(edges, v).contains(u) implies 0 <= u < n by {
        let k = choose|k: int| 0 <= k < list.len() && list[k] == u;
        assert(0 <= list[k] < n);
    }
    assert(near_set(edges, v) =~= indices_where(n as int, near_test(edges, v)));
    assert(near_set(edges, v).subset_of(list.to_set()));
    vstd::set_lib::lemma_len_subset(near_set(edges, v), list.to_set());
    list.lemma_cardinality_of_set();
}

/// Renumbering keeps the edges in range and leaves the incidence lists as
/// they are: the node `p(v)` has the incident edges that `v` had.
pub proof fn lemma_renumbered_incidence(
    edges: Edges,
    n: int,
    p: spec_fn(int) -> int,
    q: spec_fn(int) -> int,
    v: int,
)
    requires
        edges_in_range(edges, n),
        is_renumbering(n, p, q),
        0 <= v < n,
    ensures
        edges_in_range(renumbered(edges, p), n),
        outgoing_edges(renumbered(edges, p), p(v)) == outgoing_edges(edges, v),
        incoming_edges(renumbered(edges, p), p(v)) == incoming_edges(edges, v),
        incident_edges(renumbered(edges, p), p(v)) == incident_edges(edges, v),
    decreases edges.len(),
{
    let moved = renumbered(edges, p);
    assert forall|i: int| 0 <= i < moved.len() implies 0 <= (#[trigger] moved[i]).0 < n && 0
        <= moved[i].1 < n by {
        assert(0 <= edges[i].0 < n && 0 <= edges[i].1 < n);
        assert(0 <= p(edges[i].0) < n && 0 <= p(edges[i].1) < n);
    }
    if edges.len() > 0 {
        let rest = edges.drop_last();
        let e = edges.last();
        assert forall|i: int| 0 <= i < rest.len() implies 0 <= (#[trigger] rest[i]).0 < n && 0
            <= rest[i].1 < n by {
            assert(rest[i] == edges[i]);
        }
        assert(moved.drop_last() =~= renumbered(rest, p));
        lemma_renumbered_incidence(rest, n, p, q, v);
        assert(edges[edges.len() - 1] == e);
        assert(0 <= e.0 < n && 0 <= e.1 < n);
        assert(moved.last() == (p(e.0), p(e.1)));
        assert(q(p(e.0)) == e.0 && q(p(e.1)) == e.1 && q(p(v)) == v);
    }
}

/// Renumbering renumbers the neighbor lists: the neighbors of `p(v)` are the
/// images of the neighbors of `v`, in the same order.
pub proof fn lemma_renumbered_neighbors(
    edges: Edges,
    n: int,
    p: spec_fn(int) -> int,
    q: spec_fn(int) -> int,
    v: int,
)
    requires
        edges_in_range(edges, n),
        is_renumbering(n, p, q),
        0 <= v < n,
    ensures
        neighbors(renumbered(edges, p), p(v)) == neighbors(edges, v).map_values(p),
        forall|u: int|
            0 <= u < n ==> neighbors(renumbered(edges, p), #[trigger] p(v)).contains(
                #[trigger] p(u),
            ) == neighbors(edges, v).contains(u),
{
    let moved = renumbered(edges, p);
    let list = neighbors(edges, v);
    let moved_list = neighbors(moved, p(v));
    lemma_renumbered_incidence(edges, n, p, q, v);
    lemma_incident_edges(edges, v);
    lemma_neighbors_in_range(edges, n, v);
    let ids = incident_edges(edges, v);
    assert forall|k: int| 0 <= k < list.len() implies moved_list[k] == p(list[k]) by {
        let e = edges[ids[k]];
        assert(0 <= e.0 < n && 0 <= e.1 < n);
        assert(moved[ids[k]] == (p(e.0), p(e.1)));
        assert(q(p(e.0)) == e.0 && q(p(v)) == v);
        assert(list[k] == other_end(e, v));
        assert(moved_list[k] == other_end(moved[ids[k]], p(v)));
    }
    assert(moved_list =~= list.map_values(p));
    assert forall|u: int| 0 <= u < n implies moved_list.contains(#[trigger] p(u)) == list.contains(
        u,
    ) by {
        if list.contains(u) {
            let k = choose|k: int| 0 <= k < list.len() && list[k] == u;
            assert(moved_list[k] == p(u));
        }
        if moved_list.contains(p(u)) {
            let k = choose|k: int| 0 <= k < moved_list.len() && moved_list[k] == p(u);
            assert(0 <= list[k] < n);
            assert(q(p(list[k])) == list[k] && q(p(u)) == u);
            assert(list[k] == u);
        }
    }
}

/// Renumbering that keeps gaps keeps the distance-1 set of a node, up to the
/// renumbering, and so its distance-1 count.
pub proof fn lemma_renumbered_near(
    edges: Edges,
    n: nat,
    p: spec_fn(int) -> int,
    q: spec_fn(int) -> int,
    v: int,
)
    requires
        edges_in_range(edges, n as int),
        is_renumbering(n as int, p, q),
        keeps_gaps(n as int, p),
        0 <= v < n,
    ensures
        near_count(renumbered(edges, p), p(v)) == near_count(edges, v),
        forall|w: int|
            0 <= w < n ==> near_set(renumbered(edges, p), p(v)).contains(#[trigger] p(w))
                == near_set(edges, v).contains(w),
{
    let moved = renumbered(edges, p);
    lemma_renumbered_incidence(edges, n as int, p, q, v);
    lemma_renumbered_neighbors(edges, n as int, p, q, v);
    lemma_near_count_counts_nodes(edges, n, v);
    lemma_near_count_counts_nodes(moved, n, p(v));
    let before = near_test(edges, v);
    let after = near_test(moved, p(v));
    assert forall|w: int| 0 <= w < n implies after(#[trigger] p(w)) == before(w) by {
        assert(neighbors(moved, p(v)).contains(p(w)) == neighbors(edges, v).contains(w));
        assert(index_gapped(p(w), p(v)) == index_gapped(w, v));
    }
    lemma_count_renumbered(n, before, after, p, q);
    assert forall|w: int| 0 <= w < n implies near_set(moved, p(v)).contains(#[trigger] p(w))
        == near_set(edges, v).contains(w) by {
        assert(after(p(w)) == before(w));
    }
}

/// Renumbering that keeps gaps keeps what is reached at the second hop: the
/// neighbor `p(u)` leads `p(v)` on to a qualifying node exactly if `u` led
/// `v` on to one.
pub proof fn lemma_renumbered_reach(
    edges: Edges,
    n: nat,
    p: spec_fn(int) -> int,
    q: spec_fn(int) -> int,
    v: int,
    u: int,
)
    requires
        edges_in_range(edges, n as int),
        is_renumbering(n as int, p, q),
        keeps_gaps(n as int, p),
        0 <= v < n,
        0 <= u < n,
    ensures
        reaches_far(renumbered(edges, p), p(v), p(u)) == reaches_far(edges, v, u),
{
    let moved = renumbered(edges, p);
    lemma_renumbered_neighbors(edges, n as int, p, q, v);
    lemma_renumbered_neighbors(edges, n as int, p, q, u);
    lemma_renumbered_near(edges, n, p, q, v);
    lemma_neighbors_in_range(edges, n as int, u);
    let second = neighbors(edges, u);
    let moved_second = neighbors(moved, p(u));
    assert forall|j: int| 0 <= j < second.len() implies far_candidate(
        moved,
        p(v),
        #[trigger] moved_second[j],
    ) == far_candidate(edges, v, second[j]) by {
        let w = second[j];
        assert(0 <= w < n);
        assert(moved_second[j] == p(w));
        assert(neighbors(moved, p(v)).contains(p(w)) == neighbors(edges, v).contains(w));
        assert(index_gapped(p(w), p(v)) == index_gapped(w, v));
        assert(near_set(moved, p(v)).contains(p(w)) == near_set(edges, v).contains(w));
    }
    if reaches_far(edges, v, u) {
        let j = choose|j: int|
            0 <= j < second.len() && far_candidate(edges, v, #[trigger] second[j]);
        assert(far_candidate(moved, p(v), moved_second[j]));
    }
    if reaches_far(moved, p(v), p(u)) {
        let j = choose|j: int|
            0 <= j < moved_second.len() && far_candidate(moved, p(v), #[trigger] moved_second[j]);
        assert(far_candidate(edges, v, second[j]));
    }
}

/// Renumbering that keeps gaps keeps the distance-2 tally of a node.
pub proof fn lemma_renumbered_far(
    edges: Edges,
    n: nat,
    p: spec_fn(int) -> int,
    q: spec_fn(int) -> int,
    v: int,
)
    requires
        edges_in_range(edges, n as int),
        is_renumbering(n as int, p, q),
        keeps_gaps(n as int, p),
        0 <= v < n,
    ensures
        far_count(renumbered(edges, p), p(v)) == far_count(edges, v),
{
    let moved = renumbered(edges, p);
    let to = p(v);
    lemma_renumbered_neighbors(edges, n as int, p, q, v);
    lemma_neighbors_in_range(edges, n as int, v);
    let list = neighbors(edges, v);
    let before = |i: int| reaches_far(edges, v, neighbors(edges, v)[i]);
    let after = |i: int| reaches_far(moved, to, neighbors(moved, to)[i]);
    assert forall|i: int| 0 <= i < list.len() implies #[trigger] before(i) == after(i) by {
        assert(0 <= list[i] < n);
        assert(neighbors(moved, to)[i] == p(list[i]));
        lemma_renumbered_reach(edges, n, p, q, v, list[i]);
    }
    lemma_count_pointwise_eq(list.len(), before, after);
    assert(far_count(edges, v) == far_count_among(edges, v, list.len()));
    assert(far_count(moved, to) == far_count_among(moved, to, list.len()));
}

/// The distance-gap analysis is invariant under renumbering that keeps index
/// gaps. If the nodes `0 .. n` are renumbered by a one-to-one map `p` (with
/// inverse `q`) under which two nodes are index-gapped exactly if they were
/// before, the graph with the renumbered edges has the same distance-1 total
/// and the same distance-2 total. The labels of the nodes play no part.
pub proof fn lemma_renumbering_keeps_totals(
    edges: Edges,
    n: nat,
    p: spec_fn(int) -> int,
    q: spec_fn(int) -> int,
)
    requires
        edges_in_range(edges, n as int),
        is_renumbering(n as int, p, q),
        keeps_gaps(n as int, p),
    ensures
        near_total(renumbered(edges, p), n) == near_total(edges, n),
        far_total(renumbered(edges, p), n) == far_total(edges, n),
{
    let moved = renumbered(edges, p);
    let near_before = |v: int| near_count(edges, v);
    let near_after = |v: int| near_count(moved, v);
    let far_before = |v: int| far_count(edges, v);
    let far_after = |v: int| far_count(moved, v);
    assert forall|v: int| 0 <= v < n implies near_after(#[trigger] p(v)) == near_before(v) by {
        lemma_renumbered_near(edges, n, p, q, v);
    }
    assert forall|v: int| 0 <= v < n implies far_after(#[trigger] p(v)) == far_before(v) by {
        lemma_renumbered_far(edges, n, p, q, v);
    }
    lemma_sum_renumbered(n, near_before, near_after, p, q);
    lemma_sum_renumbered(n, far_before, far_after, p, q);
}

} // verus!
