//! The analyses: read-only statistics of a built road graph.

use vstd::prelude::*;
use std::collections::HashSet;
use crate::counting::{
    count_below, lemma_count_bounded, lemma_count_extremes, lemma_count_pointwise_eq,
    lemma_count_split, lemma_sum_grows, sum_below,
};
use crate::graph::RoadGraph;
use crate::model::{
    as_ints, component_count, connected, degree, degree_sum, is_distance,
    lemma_component_count_bounds, lemma_degree_bound, lemma_degree_sum, lemma_distance_unique,
    lemma_neighbors_in_range, lemma_walk_single, neighbors, walk_between, Edges,
};

verus! {

broadcast use vstd::std_specs::hash::group_hash_axioms;

/// Two nodes are index-gapped when their indices differ by at least this much.
pub const INDEX_GAP: usize = 5000;

/// The indices `a` and `b` differ by at least [`INDEX_GAP`].
pub open spec fn index_gapped(a: int, b: int) -> bool {
    a - b >= INDEX_GAP || b - a >= INDEX_GAP
}

/// The distinct entries of `list` that are index-gapped relative to `v`.
pub open spec fn gapped_among(list: Seq<int>, v: int) -> Set<int> {
    Set::new(|u: int| list.contains(u) && index_gapped(u, v))
}

/// The distance-1 set of `v`: its index-gapped neighbors.
pub open spec fn near_set(edges: Edges, v: int) -> Set<int> {
    gapped_among(neighbors(edges, v), v)
}

/// The distance-1 count of `v`: the number of distinct index-gapped
/// neighbors. A neighbor reached over parallel edges counts once.
pub open spec fn near_count(edges: Edges, v: int) -> nat {
    near_set(edges, v).len()
}

/// The second-hop node `w` qualifies for `v`: it is not a direct neighbor of
/// `v`, it is index-gapped relative to `v`, and it was not counted at
/// distance 1.
pub open spec fn far_candidate(edges: Edges, v: int, w: int) -> bool {
    &&& !neighbors(edges, v).contains(w)
    &&& index_gapped(w, v)
    &&& !near_set(edges, v).contains(w)
}

/// Some neighbor of `via` qualifies as a second-hop node for `v`.
pub open spec fn reaches_far(edges: Edges, v: int, via: int) -> bool {
    exists|j: int|
        0 <= j < neighbors(edges, via).len() && far_candidate(
            edges,
            v,
            #[trigger] neighbors(edges, via)[j],
        )
}

/// The number of the first `k` entries of the neighbor list of `v` through
/// which a qualifying second-hop node is reached.
pub open spec fn far_count_among(edges: Edges, v: int, k: nat) -> nat {
    count_below(k, |i: int| reaches_far(edges, v, neighbors(edges, v)[i]))
}

/// The distance-2 tally of `v`: one credit for each entry of its neighbor
/// list through which some qualifying second-hop node is reached, however
/// many there are.
pub open spec fn far_count(edges: Edges, v: int) -> nat {
    far_count_among(edges, v, neighbors(edges, v).len())
}

/// The distance-1 counts of the nodes `0 .. n`, added up.
pub open spec fn near_total(edges: Edges, n: nat) -> nat {
    sum_below(n, |v: int| near_count(edges, v))
}

/// The distance-2 tallies of the nodes `0 .. n`, added up.
pub open spec fn far_total(edges: Edges, n: nat) -> nat {
    sum_below(n, |v: int| far_count(edges, v))
}

/// Whether the indices `a` and `b` differ by at least [`INDEX_GAP`].
pub fn is_index_gapped(a: usize, b: usize) -> (gapped: bool)
    ensures
        gapped == index_gapped(a as int, b as int),
{
    if a >= b {
        a - b >= INDEX_GAP
    } else {
        b - a >= INDEX_GAP
    }
}

/// Whether `list` holds `x`.
fn holds(list: &Vec<usize>, x: usize) -> (found: bool)
    ensures
        found == as_ints(list@).contains(x as int),
{
    let mut k: usize = 0;
    while k < list.len()
        invariant
            k <= list.len(),
            forall|i: int| 0 <= i < k ==> list[i] != x,
        decreases list.len() - k,
    {
        if list[k] == x {
            assert(as_ints(list@)[k as int] == x as int);
            return true;
        }
        k += 1;
    }
    assert forall|i: int| 0 <= i < as_ints(list@).len() implies as_ints(list@)[i] != x as int by {
        assert(list[i] != x);
    }
    false
}

/// Adding an entry to a list adds it to the gapped entries if it is gapped.
proof fn lemma_gapped_among_push(list: Seq<int>, u: int, v: int)
    ensures
        gapped_among(list.push(u), v) == if index_gapped(u, v) {
            gapped_among(list, v).insert(u)
        } else {
            gapped_among(list, v)
        },
        gapped_among(Seq::<int>::empty(), v) == Set::<int>::empty(),
{
    let longer = list.push(u);
    assert forall|x: int| longer.contains(x) <==> list.contains(x) || x == u by {
        if list.contains(x) {
            let k = choose|k: int| 0 <= k < list.len() && list[k] == x;
            assert(longer[k] == x);
        }
        if x == u {
            assert(longer[list.len() as int] == x);
        }
    }
    if index_gapped(u, v) {
        assert(gapped_among(longer, v) =~= gapped_among(list, v).insert(u));
    } else {
        assert(gapped_among(longer, v) =~= gapped_among(list, v));
    }
    assert(gapped_among(Seq::<int>::empty(), v) =~= Set::<int>::empty());
}

/// The distance-1 pass over the neighbor list of `node`: the number of
/// distinct index-gapped neighbors, and the set of them.
fn count_near(node: usize, list: &Vec<usize>) -> (near: (usize, HashSet<usize>))
    ensures
        near.0 == gapped_among(as_ints(list@), node as int).len(),
        near.0 <= list.len(),
        forall|w: usize|
            near.1@.contains(w) <==> gapped_among(as_ints(list@), node as int).contains(w as int),
{
    let mut counted: HashSet<usize> = HashSet::new();
    let mut count: usize = 0;
    let mut k: usize = 0;
    let ghost all = as_ints(list@);
    proof {
        lemma_gapped_among_push(all.take(0), 0, node as int);
        assert(all.take(0) =~= Seq::<int>::empty());
    }
    while k < list.len()
        invariant
            k <= list.len(),
            all == as_ints(list@),
            count <= k,
            gapped_among(all.take(k as int), node as int).finite(),
            count == gapped_among(all.take(k as int), node as int).len(),
            forall|w: usize|
                counted@.contains(w) <==> gapped_among(all.take(k as int), node as int).contains(
                    w as int,
                ),
        decreases list.len() - k,
    {
        let u = list[k];
        proof {
            lemma_gapped_among_push(all.take(k as int), u as int, node as int);
            assert(all.take(k as int + 1) =~= all.take(k as int).push(u as int));
        }
        if is_index_gapped(u, node) && !counted.contains(&u) {
            counted.insert(u);
            count += 1;
        }
        k += 1;
    }
    assert(all.take(k as int) =~= all);
    (count, counted)
}

/// Whether some neighbor of `via` qualifies as a second-hop node for `node`.
/// The scan stops at the first one that does.
fn leads_far(
    graph: &RoadGraph,
    node: usize,
    list: &Vec<usize>,
    counted: &HashSet<usize>,
    via: usize,
) -> (found: bool)
    requires
        graph.wf(),
        as_ints(list@) == neighbors(graph.edges(), node as int),
        forall|w: usize|
            counted@.contains(w) <==> near_set(graph.edges(), node as int).contains(w as int),
    ensures
        found == reaches_far(graph.edges(), node as int, via as int),
{
    let second = graph.neighbors(via);
    let mut j: usize = 0;
    while j < second.len()
        invariant
            j <= second.len(),
            as_ints(second@) == neighbors(graph.edges(), via as int),
            as_ints(list@) == neighbors(graph.edges(), node as int),
            forall|w: usize|
                counted@.contains(w) <==> near_set(graph.edges(), node as int).contains(w as int),
            forall|i: int|
                0 <= i < j ==> !far_candidate(
                    graph.edges(),
                    node as int,
                    #[trigger] neighbors(graph.edges(), via as int)[i],
                ),
        decreases second.len() - j,
    {
        let w = second[j];
        assert(as_ints(second@)[j as int] == w as int);
        if !holds(list, w) && is_index_gapped(w, node) && !counted.contains(&w) {
            return true;
        }
        j += 1;
    }
    false
}

/// The distance-2 pass over the neighbor list of `node`.
fn count_far(graph: &RoadGraph, node: usize, list: &Vec<usize>, counted: &HashSet<usize>) -> (far:
    usize)
    requires
        graph.wf(),
        as_ints(list@) == neighbors(graph.edges(), node as int),
        forall|w: usize|
            counted@.contains(w) <==> near_set(graph.edges(), node as int).contains(w as int),
    ensures
        far == far_count(graph.edges(), node as int),
        far <= list.len(),
{
    let mut count: usize = 0;
    let mut k: usize = 0;
    while k < list.len()
        invariant
            k <= list.len(),
            count <= k,
            graph.wf(),
            as_ints(list@) == neighbors(graph.edges(), node as int),
            forall|w: usize|
                counted@.contains(w) <==> near_set(graph.edges(), node as int).contains(w as int),
            count == far_count_among(graph.edges(), node as int, k as nat),
        decreases list.len() - k,
    {
        assert(as_ints(list@)[k as int] == list[k as int] as int);
        if leads_far(graph, node, list, counted, list[k]) {
            count += 1;
        }
        k += 1;
    }
    assert(as_ints(list@).len() == list.len());
    count
}

/// The distance-gap neighborhood analysis. For every node it counts the
/// distinct direct neighbors whose index differs from the node's by at least
/// [`INDEX_GAP`], and the entries of its neighbor list that lead on to a
/// second-hop node which is index-gapped too, is no direct neighbor and was
/// not counted at distance 1; each entry earns at most one credit. The result
/// is the pair of totals over all nodes.
pub fn count_nodes_with_distance_criteria(graph: &RoadGraph) -> (totals: (u64, u64))
    requires
        graph.wf(),
    ensures
        totals.0 == near_total(graph.edges(), graph.labels().len()),
        totals.1 == far_total(graph.edges(), graph.labels().len()),
{
    let n = graph.node_count();
    let mut near: u64 = 0;
    let mut far: u64 = 0;
    let mut node: usize = 0;
    proof {
        lemma_degree_sum(graph.edges(), n as nat);
    }
    while node < n
        invariant
            node <= n,
            n == graph.labels().len(),
            graph.wf(),
            near == near_total(graph.edges(), node as nat),
            far == far_total(graph.edges(), node as nat),
            near <= degree_sum(graph.edges(), node as nat),
            far <= degree_sum(graph.edges(), node as nat),
            degree_sum(graph.edges(), n as nat) <= 2 * graph.edges().len(),
        decreases n - node,
    {
        let list = graph.neighbors(node);
        let (near_here, counted) = count_near(node, &list);
        let far_here = count_far(graph, node, &list, &counted);
        proof {
            lemma_neighbors_in_range(graph.edges(), graph.order(), node as int);
            assert(as_ints(list@).len() == list.len());
            lemma_sum_grows((node + 1) as nat, n as nat, |v: int| degree(graph.edges(), v));
        }
        near = near + near_here as u64;
        far = far + far_here as u64;
        node += 1;
    }
    (near, far)
}


/// A node has a high degree when its degree exceeds this.
pub const HIGH_DEGREE: usize = 4;

/// The number of nodes among `0 .. n` whose degree exceeds [`HIGH_DEGREE`].
pub open spec fn high_degree_count(edges: Edges, n: nat) -> nat {
    count_below(n, |v: int| degree(edges, v) > HIGH_DEGREE)
}

/// The number of nodes among `0 .. n` whose degree is `d`.
pub open spec fn nodes_with_degree(edges: Edges, n: nat, d: int) -> nat {
    count_below(n, |v: int| degree(edges, v) == d)
}

/// The number of nodes among `0 .. n` whose degree is below `bound`.
pub open spec fn nodes_with_degree_below(edges: Edges, n: nat, bound: int) -> nat {
    count_below(n, |v: int| degree(edges, v) < bound)
}

/// The number of nodes among `0 .. n` whose degree is above `low` and below
/// `bound`.
pub open spec fn nodes_with_degree_between(edges: Edges, n: nat, low: int, bound: int) -> nat {
    count_below(n, |v: int| low < degree(edges, v) < bound)
}

/// The degree table for the degrees below `bound`: a row `(d, c)` for each
/// degree `d` that `c > 0` of the nodes `0 .. n` have, by ascending degree.
pub open spec fn degree_table(edges: Edges, n: nat, bound: nat) -> Seq<(int, int)>
    decreases bound,
{
    if bound == 0 {
        Seq::empty()
    } else {
        let d = bound - 1;
        let rest = degree_table(edges, n, d as nat);
        if nodes_with_degree(edges, n, d) > 0 {
            rest.push((d, nodes_with_degree(edges, n, d) as int))
        } else {
            rest
        }
    }
}

/// The degree distribution: the degree table for all degrees. No degree
/// exceeds the number of edges.
pub open spec fn degree_distribution(edges: Edges, n: nat) -> Seq<(int, int)> {
    degree_table(edges, n, (edges.len() + 1) as nat)
}

/// The rows of a table as pairs of mathematical integers.
pub open spec fn table_of(rows: Seq<(usize, usize)>) -> Seq<(int, int)> {
    rows.map_values(|r: (usize, usize)| (r.0 as int, r.1 as int))
}

/// The sum of the counts of a table.
pub open spec fn table_total(table: Seq<(int, int)>) -> int
    decreases table.len(),
{
    if table.len() == 0 {
        0
    } else {
        table_total(table.drop_last()) + table.last().1
    }
}

/// The sum of the counts of the rows of a table whose degree exceeds
/// `threshold`.
pub open spec fn table_total_above(table: Seq<(int, int)>, threshold: int) -> int
    decreases table.len(),
{
    if table.len() == 0 {
        0
    } else {
        table_total_above(table.drop_last(), threshold) + if table.last().0 > threshold {
            table.last().1
        } else {
            0
        }
    }
}

/// Degrees that no node has add no row to the table.
pub proof fn lemma_degree_table_stable(edges: Edges, n: nat, lo: nat, hi: nat)
    requires
        lo <= hi,
        forall|d: int| lo <= d < hi ==> nodes_with_degree(edges, n, d) == 0,
    ensures
        degree_table(edges, n, hi) == degree_table(edges, n, lo),
    decreases hi - lo,
{
    if lo < hi {
        lemma_degree_table_stable(edges, n, lo, (hi - 1) as nat);
    }
}

/// The rows of a degree table are by strictly ascending degree, every count
/// is positive and is the number of nodes of that degree, and every degree
/// below the bound that some node has is in a row.
pub proof fn lemma_degree_table_rows(edges: Edges, n: nat, bound: nat)
    ensures
        forall|i: int|
            0 <= i < degree_table(edges, n, bound).len() ==> {
                let row = #[trigger] degree_table(edges, n, bound)[i];
                0 <= row.0 < bound && row.1 > 0 && row.1 == nodes_with_degree(edges, n, row.0)
            },
        forall|i: int, j: int|
            0 <= i < j < degree_table(edges, n, bound).len() ==> (#[trigger] degree_table(
                edges,
                n,
                bound,
            )[i]).0 < (#[trigger] degree_table(edges, n, bound)[j]).0,
        forall|d: int|
            0 <= d < bound && #[trigger] nodes_with_degree(edges, n, d) > 0 ==> exists|i: int|
                0 <= i < degree_table(edges, n, bound).len() && (#[trigger] degree_table(
                    edges,
                    n,
                    bound,
                )[i]).0 == d,
    decreases bound,
{
    if bound > 0 {
        let d = bound - 1;
        let rest = degree_table(edges, n, d as nat);
        let table = degree_table(edges, n, bound);
        lemma_degree_table_rows(edges, n, d as nat);
        assert forall|e: int|
            0 <= e < bound && #[trigger] nodes_with_degree(edges, n, e) > 0 implies exists|i: int|
            0 <= i < table.len() && (#[trigger] table[i]).0 == e by {
            if e == d {
                assert(table[table.len() - 1].0 == d);
            } else {
                let i = choose|i: int| 0 <= i < rest.len() && (#[trigger] rest[i]).0 == e;
                assert(table[i].0 == e);
            }
        }
    }
}

/// The counts of a degree table add up to the number of nodes whose degree
/// is below the bound, and those of the rows above a threshold to the number
/// of nodes whose degree is between the threshold and the bound.
pub proof fn lemma_degree_table_totals(edges: Edges, n: nat, bound: nat, threshold: int)
    ensures
        table_total(degree_table(edges, n, bound)) == nodes_with_degree_below(
            edges,
            n,
            bound as int,
        ),
        table_total_above(degree_table(edges, n, bound), threshold) == nodes_with_degree_between(
            edges,
            n,
            threshold,
            bound as int,
        ),
    decreases bound,
{
    if bound == 0 {
        lemma_count_extremes(n, |v: int| degree(edges, v) < 0);
        lemma_count_extremes(n, |v: int| threshold < degree(edges, v) < 0);
    } else {
        let d = bound - 1;
        let rest = degree_table(edges, n, d as nat);
        let table = degree_table(edges, n, bound);
        lemma_degree_table_totals(edges, n, d as nat, threshold);
        lemma_count_split(
            n,
            |v: int| degree(edges, v) < d,
            |v: int| degree(edges, v) == d,
            |v: int| degree(edges, v) < bound,
        );
        if d > threshold {
            lemma_count_split(
                n,
                |v: int| threshold < degree(edges, v) < d,
                |v: int| degree(edges, v) == d,
                |v: int| threshold < degree(edges, v) < bound,
            );
        } else {
            lemma_count_pointwise_eq(
                n,
                |v: int| threshold < degree(edges, v) < d,
                |v: int| threshold < degree(edges, v) < bound,
            );
        }
        if nodes_with_degree(edges, n, d) > 0 {
            assert(table.drop_last() =~= rest);
        }
    }
}

/// The counts of the degree distribution add up to the number of nodes.
pub proof fn lemma_distribution_total(edges: Edges, n: nat)
    ensures
        table_total(degree_distribution(edges, n)) == n,
{
    let bound = (edges.len() + 1) as nat;
    lemma_degree_table_totals(edges, n, bound, 0);
    let below = |v: int| degree(edges, v) < bound;
    assert forall|v: int| 0 <= v < n implies #[trigger] below(v) by {
        lemma_degree_bound(edges, v);
    }
    lemma_count_extremes(n, below);
}

/// The high-degree count agrees with the degree distribution: it is the sum
/// of the counts of the rows whose degree exceeds [`HIGH_DEGREE`].
pub proof fn lemma_high_degree_in_distribution(edges: Edges, n: nat)
    ensures
        table_total_above(degree_distribution(edges, n), HIGH_DEGREE as int) == high_degree_count(
            edges,
            n,
        ),
{
    let bound = (edges.len() + 1) as nat;
    lemma_degree_table_totals(edges, n, bound, HIGH_DEGREE as int);
    let between = |v: int| HIGH_DEGREE < degree(edges, v) < bound;
    let above = |v: int| degree(edges, v) > HIGH_DEGREE;
    assert forall|v: int| 0 <= v < n implies #[trigger] between(v) == above(v) by {
        lemma_degree_bound(edges, v);
    }
    lemma_count_pointwise_eq(n, between, above);
}

/// The high-degree node count: the number of nodes with more than
/// [`HIGH_DEGREE`] incident edges.
pub fn find_total_nodes_with_more_than_four_connections(graph: &RoadGraph) -> (total: usize)
    requires
        graph.wf(),
    ensures
        total == high_degree_count(graph.edges(), graph.labels().len()),
{
    let n = graph.node_count();
    let mut total: usize = 0;
    let mut node: usize = 0;
    while node < n
        invariant
            node <= n,
            n == graph.labels().len(),
            graph.wf(),
            total <= node,
            total == high_degree_count(graph.edges(), node as nat),
        decreases n - node,
    {
        if graph.degree(node) > HIGH_DEGREE {
            total += 1;
        }
        node += 1;
    }
    total
}

/// The degree distribution: for each degree that occurs, the number of nodes
/// that have it, as rows `(degree, nodes)` by ascending degree.
pub fn analyze_degree_distribution(graph: &RoadGraph) -> (rows: Vec<(usize, usize)>)
    requires
        graph.wf(),
    ensures
        table_of(rows@) == degree_distribution(graph.edges(), graph.labels().len()),
        table_total(table_of(rows@)) == graph.labels().len(),
{
    let n = graph.node_count();
    let ghost edges = graph.edges();
    let mut tally: Vec<usize> = Vec::new();
    let mut node: usize = 0;
    proof {
        assert forall|d: int| #[trigger] nodes_with_degree(edges, 0, d) == 0 by {}
    }
    while node < n
        invariant
            node <= n,
            n == graph.labels().len(),
            graph.wf(),
            edges == graph.edges(),
            tally.len() <= edges.len() + 1,
            forall|d: int|
                0 <= d < tally.len() ==> tally[d] == #[trigger] nodes_with_degree(
                    edges,
                    node as nat,
                    d,
                ),
            forall|d: int|
                d >= tally.len() ==> #[trigger] nodes_with_degree(edges, node as nat, d) == 0,
        decreases n - node,
    {
        let here = graph.degree(node);
        proof {
            lemma_degree_bound(edges, node as int);
        }
        while tally.len() <= here
            invariant
                here <= edges.len(),
                tally.len() <= edges.len() + 1,
                forall|d: int|
                    0 <= d < tally.len() ==> tally[d] == #[trigger] nodes_with_degree(
                        edges,
                        node as nat,
                        d,
                    ),
                forall|d: int|
                    d >= tally.len() ==> #[trigger] nodes_with_degree(edges, node as nat, d) == 0,
            decreases here + 1 - tally.len(),
        {
            tally.push(0);
        }
        let seen = tally[here];
        proof {
            lemma_count_bounded(node as nat, |v: int| degree(edges, v) == here as int);
            assert(seen == nodes_with_degree(edges, node as nat, here as int));
        }
        let ghost before = tally@;
        tally.set(here, seen + 1);
        node += 1;
        proof {
            assert forall|d: int| 0 <= d < tally.len() implies tally[d] == #[trigger] nodes_with_degree(
                edges,
                node as nat,
                d,
            ) by {
                assert(before[d] == nodes_with_degree(edges, (node - 1) as nat, d));
                assert(nodes_with_degree(edges, node as nat, d) == nodes_with_degree(
                    edges,
                    (node - 1) as nat,
                    d,
                ) + if degree(edges, node - 1) == d {
                    1nat
                } else {
                    0nat
                });
            }
            assert forall|d: int| d >= tally.len() implies #[trigger] nodes_with_degree(
                edges,
                node as nat,
                d,
            ) == 0 by {
                assert(nodes_with_degree(edges, (node - 1) as nat, d) == 0);
                assert(nodes_with_degree(edges, node as nat, d) == nodes_with_degree(
                    edges,
                    (node - 1) as nat,
                    d,
                ) + if degree(edges, node - 1) == d {
                    1nat
                } else {
                    0nat
                });
            }
        }
    }
    let mut rows: Vec<(usize, usize)> = Vec::new();
    let mut d: usize = 0;
    assert(table_of(rows@) =~= degree_table(edges, n as nat, 0));
    while d < tally.len()
        invariant
            d <= tally.len(),
            forall|e: int|
                0 <= e < tally.len() ==> tally[e] == #[trigger] nodes_with_degree(edges, n as nat, e),
            table_of(rows@) == degree_table(edges, n as nat, d as nat),
        decreases tally.len() - d,
    {
        let count = tally[d];
        assert(count == nodes_with_degree(edges, n as nat, d as int));
        if count > 0 {
            let ghost before = rows@;
            rows.push((d, count));
            assert(table_of(rows@) =~= table_of(before).push((d as int, count as int)));
        }
        d += 1;
    }
    proof {
        lemma_degree_table_stable(edges, n as nat, tally.len() as nat, (edges.len() + 1) as nat);
        lemma_distribution_total(edges, n as nat);
    }
    rows
}

/// The number of connected components: the number of classes into which
/// reachability along edges divides the nodes. It is at least 1 for a graph
/// with a node, at most the number of nodes, and 0 for the empty graph.
pub fn analyze_connected_components(graph: &RoadGraph) -> (count: usize)
    requires
        graph.wf(),
    ensures
        count == component_count(graph.edges(), graph.order()),
        count <= graph.labels().len(),
        graph.labels().len() >= 1 ==> count >= 1,
{
    proof {
        lemma_component_count_bounds(graph.edges(), graph.order());
    }
    graph.count_components()
}

/// The test that the cutoff applies to an entry `(node, distance)`.
pub open spec fn cutoff_test(cutoff: u32) -> spec_fn((usize, u32)) -> bool {
    |entry: (usize, u32)| entry.1 <= cutoff
}

/// The entries whose distance is at most `cutoff`, in their order.
pub open spec fn kept_within(found: Seq<(usize, u32)>, cutoff: u32) -> Seq<(usize, u32)> {
    found.filter(cutoff_test(cutoff))
}

/// Keeps the entries `(node, distance)` whose distance is at most `cutoff`.
pub fn keep_within(found: &Vec<(usize, u32)>, cutoff: u32) -> (kept: Vec<(usize, u32)>)
    ensures
        kept@ == kept_within(found@, cutoff),
{
    let mut kept: Vec<(usize, u32)> = Vec::new();
    let mut k: usize = 0;
    proof {
        reveal(Seq::filter);
        assert(found@.take(0) =~= Seq::empty());
        assert(kept@ =~= kept_within(found@.take(0), cutoff));
    }
    while k < found.len()
        invariant
            k <= found.len(),
            kept@ == kept_within(found@.take(k as int), cutoff),
        decreases found.len() - k,
    {
        let entry = found[k];
        proof {
            assert(found@.take(k + 1) =~= found@.take(k as int).push(entry));
            found@.take(k as int).lemma_filter_push(entry, cutoff_test(cutoff));
        }
        if entry.1 <= cutoff {
            kept.push(entry);
        }
        k += 1;
    }
    assert(found@.take(k as int) =~= found@);
    kept
}

/// What is kept is a selection: every kept entry was found and is within the
/// cutoff, every found entry within the cutoff is kept, and if no node was
/// found twice, none is kept twice.
pub proof fn lemma_kept_within(found: Seq<(usize, u32)>, cutoff: u32)
    ensures
        forall|i: int|
            0 <= i < kept_within(found, cutoff).len() ==> (#[trigger] kept_within(
                found,
                cutoff,
            )[i]).1 <= cutoff && found.contains(kept_within(found, cutoff)[i]),
        forall|j: int|
            0 <= j < found.len() && (#[trigger] found[j]).1 <= cutoff ==> kept_within(
                found,
                cutoff,
            ).contains(found[j]),
        (forall|i: int, j: int|
            0 <= i < j < found.len() ==> (#[trigger] found[i]).0 != (#[trigger] found[j]).0)
            ==> (forall|i: int, j: int|
            0 <= i < j < kept_within(found, cutoff).len() ==> (#[trigger] kept_within(
                found,
                cutoff,
            )[i]).0 != (#[trigger] kept_within(found, cutoff)[j]).0),
    decreases found.len(),
{
    let kept = kept_within(found, cutoff);
    if found.len() == 0 {
        reveal(Seq::filter);
    } else {
        let rest = found.drop_last();
        let last = found.last();
        let sub = kept_within(rest, cutoff);
        lemma_kept_within(rest, cutoff);
        assert(rest.push(last) =~= found);
        rest.lemma_filter_push(last, cutoff_test(cutoff));
        assert forall|i: int| 0 <= i < kept.len() implies (#[trigger] kept[i]).1 <= cutoff
            && found.contains(kept[i]) by {
            if i < sub.len() {
                assert(kept[i] == sub[i]);
                let j = choose|j: int| 0 <= j < rest.len() && rest[j] == sub[i];
                assert(found[j] == kept[i]);
            } else {
                assert(found[found.len() - 1] == kept[i]);
            }
        }
        assert forall|j: int| 0 <= j < found.len() && (#[trigger] found[j]).1 <= cutoff implies kept.contains(
            found[j],
        ) by {
            if j < rest.len() {
                assert(rest[j] == found[j]);
                assert(sub.contains(rest[j]));
                let i = choose|i: int| 0 <= i < sub.len() && sub[i] == rest[j];
                assert(kept[i] == found[j]);
            } else {
                assert(kept[kept.len() - 1] == found[j]);
            }
        }
        if forall|i: int, j: int|
            0 <= i < j < found.len() ==> (#[trigger] found[i]).0 != (#[trigger] found[j]).0 {
            assert forall|i: int, j: int| 0 <= i < j < rest.len() implies (#[trigger] rest[i]).0 != (
            #[trigger] rest[j]).0 by {
                assert(rest[i] == found[i] && rest[j] == found[j]);
            }
            assert forall|i: int, j: int| 0 <= i < j < kept.len() implies (#[trigger] kept[i]).0 != (
            #[trigger] kept[j]).0 by {
                assert(kept[i] == sub[i]);
                if j < sub.len() {
                    assert(kept[j] == sub[j]);
                } else {
                    assert(rest.contains(sub[i]));
                    let m = choose|m: int| 0 <= m < rest.len() && rest[m] == sub[i];
                    assert(found[m] == sub[i]);
                    assert(found[m].0 != found[found.len() - 1].0);
                }
            }
        }
    }
}

/// Why an analysis was refused.
#[derive(Clone, Copy, Debug, PartialEq, Eq, Structural)]
pub enum AnalysisError {
    /// The start index is not a node of the graph, which has `nodes` nodes.
    StartOutOfRange { start: usize, nodes: usize },
}

/// `list` reports the nodes within `cutoff` hops of `start`: every entry is
/// a node with its hop distance from `start`, which is at most `cutoff`; no
/// node has two entries; every node within `cutoff` hops has one; and the
/// start has the entry with distance 0.
pub open spec fn reports_paths(
    edges: Edges,
    n: int,
    start: int,
    cutoff: u32,
    list: Seq<(usize, u32)>,
) -> bool {
    &&& forall|i: int|
        0 <= i < list.len() ==> (#[trigger] list[i]).1 <= cutoff && is_distance(
            edges,
            n,
            start,
            list[i].0 as int,
            list[i].1 as nat,
        )
    &&& forall|i: int, j: int|
        0 <= i < j < list.len() ==> (#[trigger] list[i]).0 != (#[trigger] list[j]).0
    &&& forall|v: int, d: nat|
        d <= cutoff && #[trigger] is_distance(edges, n, start, v, d) ==> exists|i: int|
            0 <= i < list.len() && (#[trigger] list[i]).0 == v && list[i].1 == d
    &&& exists|i: int| 0 <= i < list.len() && #[trigger] list[i] == (start as usize, 0u32)
}

/// The bounded shortest-path analysis. `start_node` is a node index, not a
/// label. The result lists every node whose hop distance from the start is
/// at most `max_distance`, each once and with that distance, in no
/// particular order; the start itself is among them, at distance 0. Nodes
/// that cannot be reached are left out. A start index that is not a node is
/// an error.
pub fn shortest_path_from_node(graph: &RoadGraph, start_node: u32, max_distance: u32) -> (paths:
    Result<Vec<(usize, u32)>, AnalysisError>)
    requires
        graph.wf(),
    ensures
        start_node >= graph.labels().len() ==> paths == Err::<Vec<(usize, u32)>, AnalysisError>(
            AnalysisError::StartOutOfRange {
                start: start_node as usize,
                nodes: graph.labels().len() as usize,
            },
        ),
        start_node < graph.labels().len() ==> paths is Ok,
        paths matches Ok(list) ==> reports_paths(
            graph.edges(),
            graph.order(),
            start_node as int,
            max_distance,
            list@,
        ),
{
    let n = graph.node_count();
    let start = start_node as usize;
    if start >= n {
        return Err(AnalysisError::StartOutOfRange { start, nodes: n });
    }
    let found = graph.hop_distances(start);
    let kept = keep_within(&found, max_distance);
    proof {
        let edges = graph.edges();
        let order = graph.order();
        lemma_kept_within(found@, max_distance);
        assert forall|i: int| 0 <= i < kept.len() implies (#[trigger] kept[i]).1 <= max_distance
            && is_distance(edges, order, start as int, kept[i].0 as int, kept[i].1 as nat) by {
            let j = choose|j: int| 0 <= j < found.len() && found[j] == kept[i];
            assert(found[j] == kept[i]);
        }
        assert forall|v: int, d: nat|
            d <= max_distance && #[trigger] is_distance(edges, order, start as int, v, d) implies exists|
            i: int,
        | 0 <= i < kept.len() && (#[trigger] kept[i]).0 == v && kept[i].1 == d by {
            assert(walk_between(edges, order, start as int, v, d));
            assert(connected(edges, order, start as int, v));
            let j = choose|j: int| 0 <= j < found.len() && (#[trigger] found[j]).0 == v;
            lemma_distance_unique(edges, order, start as int, v, d, found[j].1 as nat);
            assert(kept@.contains(found[j]));
            let i = choose|i: int| 0 <= i < kept.len() && kept[i] == found[j];
            assert(kept[i].0 == v && kept[i].1 == d);
        }
        lemma_walk_single(edges, order, start as int);
        assert(is_distance(edges, order, start as int, start as int, 0nat));
        let i = choose|i: int|
            0 <= i < kept.len() && (#[trigger] kept[i]).0 == start as int && kept[i].1 == 0nat;
        assert(kept[i] == (start, 0u32));
        assert(exists|i: int| 0 <= i < kept@.len() && #[trigger] kept@[i] == (start, 0u32));
        assert(forall|i: int, j: int|
            0 <= i < j < kept@.len() ==> (#[trigger] kept@[i]).0 != (#[trigger] kept@[j]).0);
        assert(reports_paths(edges, order, start as int, max_distance, kept@));
    }
    Ok(kept)
}

} // verus!
