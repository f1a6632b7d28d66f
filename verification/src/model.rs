//! The mathematical model of an undirected multigraph: nodes are the integers
//! `0 .. n`, edges are a sequence of endpoint pairs in insertion order.

use vstd::prelude::*;
use vstd::set_lib::{lemma_int_range, lemma_len_subset, set_int_range};
use crate::counting::{
    count_below, lemma_count_extremes, lemma_count_is_sum, lemma_count_of_two, lemma_sum_of_sums,
    sum_below,
};

verus! {

/// The edges of a graph: one pair of node indices per inserted edge.
pub type Edges = Seq<(int, int)>;

/// Every endpoint of every edge is a node index below `n`.
pub open spec fn edges_in_range(edges: Edges, n: int) -> bool {
    forall|i: int|
        0 <= i < edges.len() ==> 0 <= (#[trigger] edges[i]).0 < n && 0 <= edges[i].1 < n
}

/// Indices of the edges that start at `v`, most recently inserted first.
pub open spec fn outgoing_edges(edges: Edges, v: int) -> Seq<int>
    decreases edges.len(),
{
    if edges.len() == 0 {
        Seq::empty()
    } else if edges.last().0 == v {
        seq![edges.len() - 1] + outgoing_edges(edges.drop_last(), v)
    } else {
        outgoing_edges(edges.drop_last(), v)
    }
}

/// Indices of the edges that end at `v` and start elsewhere, most recently
/// inserted first. A self-loop is listed among the outgoing edges only.
pub open spec fn incoming_edges(edges: Edges, v: int) -> Seq<int>
    decreases edges.len(),
{
    if edges.len() == 0 {
        Seq::empty()
    } else if edges.last().1 == v && edges.last().0 != v {
        seq![edges.len() - 1] + incoming_edges(edges.drop_last(), v)
    } else {
        incoming_edges(edges.drop_last(), v)
    }
}

/// Indices of the edges incident to `v`, in traversal order: the outgoing
/// ones, then the incoming ones. Each incident edge is listed exactly once.
pub open spec fn incident_edges(edges: Edges, v: int) -> Seq<int> {
    outgoing_edges(edges, v) + incoming_edges(edges, v)
}

/// The endpoint of `e` that is not `v` (or `v` itself for a self-loop).
pub open spec fn other_end(e: (int, int), v: int) -> int {
    if e.0 == v {
        e.1
    } else {
        e.0
    }
}

/// The neighbor list of `v`: the far endpoint of each incident edge, in
/// traversal order. Parallel edges repeat a neighbor.
pub open spec fn neighbors(edges: Edges, v: int) -> Seq<int> {
    incident_edges(edges, v).map_values(|i: int| other_end(edges[i], v))
}

/// The degree of `v`: the number of edges incident to it.
pub open spec fn degree(edges: Edges, v: int) -> nat {
    incident_edges(edges, v).len()
}

/// Edge `e` has `v` as one of its endpoints.
pub open spec fn touches(e: (int, int), v: int) -> bool {
    e.0 == v || e.1 == v
}

/// Some edge joins `a` and `b`, in either direction.
pub open spec fn adjacent(edges: Edges, a: int, b: int) -> bool {
    exists|i: int|
        0 <= i < edges.len() && (#[trigger] edges[i] == (a, b) || edges[i] == (b, a))
}

/// `w` is a walk in the graph on nodes `0 .. n`: a non-empty sequence of
/// nodes in which consecutive nodes are adjacent.
pub open spec fn is_walk(edges: Edges, n: int, w: Seq<int>) -> bool {
    &&& w.len() >= 1
    &&& forall|k: int| 0 <= k < w.len() ==> 0 <= #[trigger] w[k] < n
    &&& forall|k: int| 0 <= k < w.len() - 1 ==> #[trigger] adjacent(edges, w[k], w[k + 1])
}

/// There is a walk of exactly `d` edges from `a` to `b`.
pub open spec fn walk_between(edges: Edges, n: int, a: int, b: int, d: nat) -> bool {
    exists|w: Seq<int>|
        #[trigger] is_walk(edges, n, w) && w.len() == d + 1 && w[0] == a && w[d as int] == b
}

/// `b` can be reached from `a`.
pub open spec fn connected(edges: Edges, n: int, a: int, b: int) -> bool {
    exists|d: nat| walk_between(edges, n, a, b, d)
}

/// `d` is the hop distance from `a` to `b`: the length of a shortest walk.
pub open spec fn is_distance(edges: Edges, n: int, a: int, b: int, d: nat) -> bool {
    &&& walk_between(edges, n, a, b, d)
    &&& forall|k: nat| k < d ==> !walk_between(edges, n, a, b, k)
}

/// `r` is the least node of its connected component.
pub open spec fn is_component_root(edges: Edges, n: int, r: int) -> bool {
    &&& 0 <= r < n
    &&& forall|v: int| 0 <= v < r ==> !connected(edges, n, v, r)
}

/// The set of component roots: one node per connected component.
pub open spec fn component_roots(edges: Edges, n: int) -> Set<int> {
    Set::new(|r: int| is_component_root(edges, n, r))
}

/// The number of connected components.
pub open spec fn component_count(edges: Edges, n: int) -> nat {
    component_roots(edges, n).len()
}

/// View a sequence of machine indices as mathematical integers.
pub open spec fn as_ints(s: Seq<usize>) -> Seq<int> {
    s.map_values(|v: usize| v as int)
}


/// Appending an edge leaves the earlier edge indices of every incidence list
/// in place and puts the new edge in front where it is incident.
pub proof fn lemma_incident_edges_push(edges: Edges, e: (int, int), v: int)
    ensures
        outgoing_edges(edges.push(e), v) == if e.0 == v {
            seq![edges.len() as int] + outgoing_edges(edges, v)
        } else {
            outgoing_edges(edges, v)
        },
        incoming_edges(edges.push(e), v) == if e.1 == v && e.0 != v {
            seq![edges.len() as int] + incoming_edges(edges, v)
        } else {
            incoming_edges(edges, v)
        },
{
    assert(edges.push(e).drop_last() =~= edges);
}

/// Every listed outgoing edge is an edge that starts at `v`, each such edge
/// is listed, and none is listed twice.
pub proof fn lemma_outgoing_edges(edges: Edges, v: int)
    ensures
        outgoing_edges(edges, v).len() <= edges.len(),
        outgoing_edges(edges, v).no_duplicates(),
        forall|i: int|
            outgoing_edges(edges, v).contains(i) <==> 0 <= i < edges.len() && edges[i].0 == v,
    decreases edges.len(),
{
    if edges.len() > 0 {
        let rest = edges.drop_last();
        let last = edges.len() - 1;
        lemma_outgoing_edges(rest, v);
        let sub = outgoing_edges(rest, v);
        let all = outgoing_edges(edges, v);
        if edges.last().0 == v {
            assert(all == seq![last] + sub);
            assert(forall|k: int| 1 <= k < all.len() ==> all[k] == sub[k - 1]);
            assert forall|i: int| all.contains(i) <==> 0 <= i < edges.len() && edges[i].0 == v by {
                if all.contains(i) {
                    let k = choose|k: int| 0 <= k < all.len() && all[k] == i;
                    if k > 0 {
                        assert(sub.contains(sub[k - 1]));
                    }
                }
                if 0 <= i < edges.len() && edges[i].0 == v {
                    if i == last {
                        assert(all[0] == i);
                    } else {
                        assert(rest[i] == edges[i]);
                        assert(sub.contains(i));
                        let k = choose|k: int| 0 <= k < sub.len() && sub[k] == i;
                        assert(all[k + 1] == i);
                    }
                }
            }
            assert forall|a: int, b: int| 0 <= a < all.len() && 0 <= b < all.len() && a != b
                implies all[a] != all[b] by {
                if a == 0 {
                    assert(sub.contains(sub[b - 1]));
                } else if b == 0 {
                    assert(sub.contains(sub[a - 1]));
                }
            }
        } else {
            assert forall|i: int| all.contains(i) <==> 0 <= i < edges.len() && edges[i].0 == v by {
                if 0 <= i < last {
                    assert(rest[i] == edges[i]);
                }
            }
        }
    }
}

/// Every listed incoming edge is a non-loop edge that ends at `v`, each such
/// edge is listed, and none is listed twice.
pub proof fn lemma_incoming_edges(edges: Edges, v: int)
    ensures
        incoming_edges(edges, v).len() <= edges.len(),
        incoming_edges(edges, v).no_duplicates(),
        forall|i: int|
            incoming_edges(edges, v).contains(i) <==> 0 <= i < edges.len() && edges[i].1 == v
                && edges[i].0 != v,
    decreases edges.len(),
{
    if edges.len() > 0 {
        let rest = edges.drop_last();
        let last = edges.len() - 1;
        lemma_incoming_edges(rest, v);
        let sub = incoming_edges(rest, v);
        let all = incoming_edges(edges, v);
        if edges.last().1 == v && edges.last().0 != v {
            assert(all == seq![last] + sub);
            assert(forall|k: int| 1 <= k < all.len() ==> all[k] == sub[k - 1]);
            assert forall|i: int|
                all.contains(i) <==> 0 <= i < edges.len() && edges[i].1 == v && edges[i].0
                    != v by {
                if all.contains(i) {
                    let k = choose|k: int| 0 <= k < all.len() && all[k] == i;
                    if k > 0 {
                        assert(sub.contains(sub[k - 1]));
                    }
                }
                if 0 <= i < edges.len() && edges[i].1 == v && edges[i].0 != v {
                    if i == last {
                        assert(all[0] == i);
                    } else {
                        assert(rest[i] == edges[i]);
                        assert(sub.contains(i));
                        let k = choose|k: int| 0 <= k < sub.len() && sub[k] == i;
                        assert(all[k + 1] == i);
                    }
                }
            }
            assert forall|a: int, b: int| 0 <= a < all.len() && 0 <= b < all.len() && a != b
                implies all[a] != all[b] by {
                if a == 0 {
                    assert(sub.contains(sub[b - 1]));
                } else if b == 0 {
                    assert(sub.contains(sub[a - 1]));
                }
            }
        } else {
            assert forall|i: int|
                all.contains(i) <==> 0 <= i < edges.len() && edges[i].1 == v && edges[i].0
                    != v by {
                if 0 <= i < last {
                    assert(rest[i] == edges[i]);
                }
            }
        }
    }
}

/// The incidence list of `v` holds exactly the edges that touch `v`, each
/// once; so the degree of `v` is the number of edges that touch it.
pub proof fn lemma_incident_edges(edges: Edges, v: int)
    ensures
        degree(edges, v) <= edges.len(),
        incident_edges(edges, v).no_duplicates(),
        forall|i: int|
            incident_edges(edges, v).contains(i) <==> 0 <= i < edges.len() && touches(
                edges[i],
                v,
            ),
        forall|k: int|
            0 <= k < incident_edges(edges, v).len() ==> 0 <= #[trigger] incident_edges(
                edges,
                v,
            )[k] < edges.len(),
{
    lemma_outgoing_edges(edges, v);
    lemma_incoming_edges(edges, v);
    let out = outgoing_edges(edges, v);
    let inc = incoming_edges(edges, v);
    let all = incident_edges(edges, v);
    assert forall|i: int| all.contains(i) <==> 0 <= i < edges.len() && touches(edges[i], v) by {
        if all.contains(i) {
            let k = choose|k: int| 0 <= k < all.len() && all[k] == i;
            if k < out.len() {
                assert(out.contains(out[k]));
            } else {
                assert(inc.contains(inc[k - out.len()]));
            }
        }
        if 0 <= i < edges.len() && touches(edges[i], v) {
            if edges[i].0 == v {
                assert(out.contains(i));
                let k = choose|k: int| 0 <= k < out.len() && out[k] == i;
                assert(all[k] == i);
            } else {
                assert(inc.contains(i));
                let k = choose|k: int| 0 <= k < inc.len() && inc[k] == i;
                assert(all[k + out.len()] == i);
            }
        }
    }
    assert forall|a: int, b: int| 0 <= a < all.len() && 0 <= b < all.len() && a != b implies all[a]
        != all[b] by {
        if a < out.len() {
            assert(out.contains(out[a]));
        } else {
            assert(inc.contains(inc[a - out.len()]));
        }
        if b < out.len() {
            assert(out.contains(out[b]));
        } else {
            assert(inc.contains(inc[b - out.len()]));
        }
    }
    assert forall|k: int| 0 <= k < all.len() implies 0 <= #[trigger] all[k] < edges.len() by {
        assert(all.contains(all[k]));
    }
    lemma_degree_bound(edges, v);
}

/// No node has more incident edges than the graph has edges.
pub proof fn lemma_degree_bound(edges: Edges, v: int)
    ensures
        degree(edges, v) <= edges.len(),
    decreases edges.len(),
{
    if edges.len() > 0 {
        lemma_degree_bound(edges.drop_last(), v);
    }
}

/// In a graph on the nodes `0 .. n`, every neighbor is a node, and what is
/// not a node has no incident edge.
pub proof fn lemma_neighbors_in_range(edges: Edges, n: int, v: int)
    requires
        edges_in_range(edges, n),
    ensures
        neighbors(edges, v).len() == degree(edges, v),
        forall|k: int|
            0 <= k < neighbors(edges, v).len() ==> 0 <= #[trigger] neighbors(edges, v)[k] < n,
        !(0 <= v < n) ==> degree(edges, v) == 0,
{
    lemma_incident_edges(edges, v);
    let ids = incident_edges(edges, v);
    if !(0 <= v < n) && ids.len() > 0 {
        assert(ids.contains(ids[0]));
        assert(touches(edges[ids[0]], v));
    }
}


/// The sum of the degrees of the nodes `0 .. n`.
pub open spec fn degree_sum(edges: Edges, n: nat) -> nat {
    sum_below(n, |v: int| degree(edges, v))
}

/// Appending an edge raises the degree of the nodes it touches by one.
pub proof fn lemma_degree_push(edges: Edges, e: (int, int), v: int)
    ensures
        degree(edges.push(e), v) == degree(edges, v) + if touches(e, v) {
            1nat
        } else {
            0nat
        },
{
    lemma_incident_edges_push(edges, e, v);
}

/// Every edge is counted at most twice in the sum of all degrees.
pub proof fn lemma_degree_sum(edges: Edges, n: nat)
    ensures
        degree_sum(edges, n) <= 2 * edges.len(),
    decreases edges.len(),
{
    if edges.len() == 0 {
        lemma_count_is_sum(n, |v: int| false, |v: int| degree(edges, v));
        lemma_count_extremes(n, |v: int| false);
    } else {
        let rest = edges.drop_last();
        let e = edges.last();
        assert(rest.push(e) =~= edges);
        lemma_degree_sum(rest, n);
        let indicator = |v: int|
            if touches(e, v) {
                1nat
            } else {
                0nat
            };
        let by_all = |v: int| degree(edges, v);
        let by_rest = |v: int| degree(rest, v);
        assert forall|v: int| 0 <= v < n implies #[trigger] by_all(v) == by_rest(v) + indicator(
            v,
        ) by {
            lemma_degree_push(rest, e, v);
        }
        lemma_sum_of_sums(n, by_rest, indicator, by_all);
        lemma_count_is_sum(n, |v: int| touches(e, v), indicator);
        lemma_count_of_two(n, |v: int| touches(e, v), e.0, e.1);
    }
}


/// A node is connected to itself by the walk that stays there.
pub proof fn lemma_walk_single(edges: Edges, n: int, v: int)
    requires
        0 <= v < n,
    ensures
        walk_between(edges, n, v, v, 0),
        connected(edges, n, v, v),
{
    let w = seq![v];
    assert(is_walk(edges, n, w));
    assert(w[0] == v);
    assert(walk_between(edges, n, v, v, 0nat));
}

/// A walk can be walked backwards.
pub proof fn lemma_walk_reverse(edges: Edges, n: int, a: int, b: int, d: nat)
    requires
        walk_between(edges, n, a, b, d),
    ensures
        walk_between(edges, n, b, a, d),
{
    let w = choose|w: Seq<int>| #[trigger]
        is_walk(edges, n, w) && w.len() == d + 1 && w[0] == a && w[d as int] == b;
    let r = Seq::new(w.len(), |k: int| w[d - k]);
    assert forall|k: int| 0 <= k < r.len() implies 0 <= #[trigger] r[k] < n by {
        assert(0 <= w[d - k] < n);
    }
    assert forall|k: int| 0 <= k < r.len() - 1 implies #[trigger] adjacent(
        edges,
        r[k],
        r[k + 1],
    ) by {
        let x = w[d - k - 1];
        let y = w[d - k];
        assert(adjacent(edges, w[d - k - 1], w[d - k - 1 + 1]));
        let i = choose|i: int|
            0 <= i < edges.len() && (#[trigger] edges[i] == (x, y) || edges[i] == (y, x));
        assert(edges[i] == (y, x) || edges[i] == (x, y));
    }
    assert(is_walk(edges, n, r));
    assert(r[0] == b && r[d as int] == a);
}

/// Two walks that meet make one walk.
pub proof fn lemma_walk_concat(edges: Edges, n: int, a: int, b: int, c: int, d1: nat, d2: nat)
    requires
        walk_between(edges, n, a, b, d1),
        walk_between(edges, n, b, c, d2),
    ensures
        walk_between(edges, n, a, c, d1 + d2),
{
    let w1 = choose|w: Seq<int>| #[trigger]
        is_walk(edges, n, w) && w.len() == d1 + 1 && w[0] == a && w[d1 as int] == b;
    let w2 = choose|w: Seq<int>| #[trigger]
        is_walk(edges, n, w) && w.len() == d2 + 1 && w[0] == b && w[d2 as int] == c;
    let w = Seq::new(
        d1 + d2 + 1,
        |k: int|
            if k <= d1 {
                w1[k]
            } else {
                w2[k - d1]
            },
    );
    assert forall|k: int| 0 <= k < w.len() implies 0 <= #[trigger] w[k] < n by {
        if k <= d1 {
            assert(0 <= w1[k] < n);
        } else {
            assert(0 <= w2[k - d1] < n);
        }
    }
    assert forall|k: int| 0 <= k < w.len() - 1 implies #[trigger] adjacent(
        edges,
        w[k],
        w[k + 1],
    ) by {
        if k < d1 {
            assert(adjacent(edges, w1[k], w1[k + 1]));
        } else {
            assert(adjacent(edges, w2[k - d1], w2[k - d1 + 1]));
        }
    }
    assert(is_walk(edges, n, w));
    assert(w[0] == a && w[(d1 + d2) as int] == c);
}

/// Being connected is symmetric.
pub proof fn lemma_connected_symmetric(edges: Edges, n: int, a: int, b: int)
    requires
        connected(edges, n, a, b),
    ensures
        connected(edges, n, b, a),
{
    let d = choose|d: nat| walk_between(edges, n, a, b, d);
    lemma_walk_reverse(edges, n, a, b, d);
}

/// Being connected is transitive.
pub proof fn lemma_connected_transitive(edges: Edges, n: int, a: int, b: int, c: int)
    requires
        connected(edges, n, a, b),
        connected(edges, n, b, c),
    ensures
        connected(edges, n, a, c),
{
    let d1 = choose|d: nat| walk_between(edges, n, a, b, d);
    let d2 = choose|d: nat| walk_between(edges, n, b, c, d);
    lemma_walk_concat(edges, n, a, b, c, d1, d2);
}

/// Two nodes have at most one hop distance.
pub proof fn lemma_distance_unique(edges: Edges, n: int, a: int, b: int, d1: nat, d2: nat)
    requires
        is_distance(edges, n, a, b, d1),
        is_distance(edges, n, a, b, d2),
    ensures
        d1 == d2,
{
}

/// The roots are nodes, so there are at most `n` components; a graph with a
/// node has a component, the one of node 0, and the empty graph has none.
pub proof fn lemma_component_count_bounds(edges: Edges, n: int)
    ensures
        component_roots(edges, n).finite(),
        component_count(edges, n) <= if n >= 0 {
            n
        } else {
            0
        },
        n >= 1 ==> component_count(edges, n) >= 1,
{
    let roots = component_roots(edges, n);
    let m = if n >= 0 {
        n
    } else {
        0
    };
    let nodes = set_int_range(0, m);
    lemma_int_range(0, m);
    assert(roots.subset_of(nodes));
    lemma_len_subset(roots, nodes);
    if n >= 1 {
        assert(is_component_root(edges, n, 0));
        assert(roots.contains(0));
        if roots.len() == 0 {
            roots.lemma_len0_is_empty();
        }
    }
}

/// Every node is connected to a component root.
pub proof fn lemma_component_root_exists(edges: Edges, n: int, v: int)
    requires
        0 <= v < n,
    ensures
        exists|r: int| is_component_root(edges, n, r) && connected(edges, n, r, v),
    decreases v,
{
    if is_component_root(edges, n, v) {
        lemma_walk_single(edges, n, v);
    } else {
        let u = choose|u: int| 0 <= u < v && connected(edges, n, u, v);
        lemma_component_root_exists(edges, n, u);
        let r = choose|r: int| is_component_root(edges, n, r) && connected(edges, n, r, u);
        lemma_connected_transitive(edges, n, r, u, v);
    }
}

/// The components partition the nodes: every node is connected to exactly
/// one component root, so the number of roots is the number of classes of
/// nodes under reachability.
pub proof fn lemma_components_partition(edges: Edges, n: int, v: int)
    requires
        0 <= v < n,
    ensures
        exists|r: int| is_component_root(edges, n, r) && connected(edges, n, r, v),
        forall|r1: int, r2: int|
            is_component_root(edges, n, r1) && connected(edges, n, r1, v) && is_component_root(
                edges,
                n,
                r2,
            ) && connected(edges, n, r2, v) ==> r1 == r2,
{
    lemma_component_root_exists(edges, n, v);
    assert forall|r1: int, r2: int|
        is_component_root(edges, n, r1) && connected(edges, n, r1, v) && is_component_root(
            edges,
            n,
            r2,
        ) && connected(edges, n, r2, v) implies r1 == r2 by {
        lemma_connected_symmetric(edges, n, r1, v);
        lemma_connected_symmetric(edges, n, r2, v);
        lemma_connected_transitive(edges, n, r1, v, r2);
        lemma_connected_transitive(edges, n, r2, v, r1);
    }
}

} // verus!
