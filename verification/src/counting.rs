//! Sums and counts over the index range `0 .. n`, and the few facts about
//! them that the analyses rest on.

use vstd::prelude::*;

verus! {

/// The sum of `f(0), ..., f(n - 1)`.
pub open spec fn sum_below(n: nat, f: spec_fn(int) -> nat) -> nat
    decreases n,
{
    if n == 0 {
        0
    } else {
        sum_below((n - 1) as nat, f) + f(n - 1)
    }
}

/// The number of indices below `n` that satisfy `p`.
pub open spec fn count_below(n: nat, p: spec_fn(int) -> bool) -> nat
    decreases n,
{
    if n == 0 {
        0
    } else {
        count_below((n - 1) as nat, p) + if p(n - 1) {
            1nat
        } else {
            0nat
        }
    }
}

/// Sums of pointwise equal functions are equal.
pub proof fn lemma_sum_pointwise_eq(n: nat, f: spec_fn(int) -> nat, g: spec_fn(int) -> nat)
    requires
        forall|i: int| 0 <= i < n ==> #[trigger] f(i) == g(i),
    ensures
        sum_below(n, f) == sum_below(n, g),
    decreases n,
{
    if n > 0 {
        lemma_sum_pointwise_eq((n - 1) as nat, f, g);
    }
}

/// A sum over a shorter range is no larger.
pub proof fn lemma_sum_grows(m: nat, n: nat, f: spec_fn(int) -> nat)
    requires
        m <= n,
    ensures
        sum_below(m, f) <= sum_below(n, f),
    decreases n,
{
    if m < n {
        lemma_sum_grows(m, (n - 1) as nat, f);
    }
}

/// The sum of a pointwise sum is the sum of the sums.
pub proof fn lemma_sum_of_sums(
    n: nat,
    f: spec_fn(int) -> nat,
    g: spec_fn(int) -> nat,
    h: spec_fn(int) -> nat,
)
    requires
        forall|i: int| 0 <= i < n ==> #[trigger] h(i) == f(i) + g(i),
    ensures
        sum_below(n, h) == sum_below(n, f) + sum_below(n, g),
    decreases n,
{
    if n > 0 {
        lemma_sum_of_sums((n - 1) as nat, f, g, h);
    }
}

/// Changing a function at one index changes its sum by the difference there.
pub proof fn lemma_sum_changed_at(
    n: nat,
    f: spec_fn(int) -> nat,
    g: spec_fn(int) -> nat,
    at: int,
)
    requires
        0 <= at < n,
        forall|i: int| 0 <= i < n && i != at ==> #[trigger] f(i) == g(i),
    ensures
        sum_below(n, f) + g(at) == sum_below(n, g) + f(at),
    decreases n,
{
    if at == n - 1 {
        lemma_sum_pointwise_eq((n - 1) as nat, f, g);
    } else {
        lemma_sum_changed_at((n - 1) as nat, f, g, at);
    }
}

/// A count is the sum of the indicator.
pub proof fn lemma_count_is_sum(n: nat, p: spec_fn(int) -> bool, f: spec_fn(int) -> nat)
    requires
        forall|i: int|
            0 <= i < n ==> #[trigger] f(i) == if p(i) {
                1nat
            } else {
                0nat
            },
    ensures
        count_below(n, p) == sum_below(n, f),
    decreases n,
{
    if n > 0 {
        lemma_count_is_sum((n - 1) as nat, p, f);
    }
}

/// No more than `n` indices below `n` satisfy anything.
pub proof fn lemma_count_bounded(n: nat, p: spec_fn(int) -> bool)
    ensures
        count_below(n, p) <= n,
    decreases n,
{
    if n > 0 {
        lemma_count_bounded((n - 1) as nat, p);
    }
}

/// Counts of predicates that agree below `n` are equal.
pub proof fn lemma_count_pointwise_eq(n: nat, p: spec_fn(int) -> bool, q: spec_fn(int) -> bool)
    requires
        forall|i: int| 0 <= i < n ==> #[trigger] p(i) == q(i),
    ensures
        count_below(n, p) == count_below(n, q),
    decreases n,
{
    if n > 0 {
        lemma_count_pointwise_eq((n - 1) as nat, p, q);
    }
}

/// If `r` holds exactly where one of the exclusive predicates `p`, `q` holds,
/// its count is the sum of theirs.
pub proof fn lemma_count_split(
    n: nat,
    p: spec_fn(int) -> bool,
    q: spec_fn(int) -> bool,
    r: spec_fn(int) -> bool,
)
    requires
        forall|i: int| 0 <= i < n ==> #[trigger] r(i) == (p(i) || q(i)),
        forall|i: int| 0 <= i < n ==> !(#[trigger] p(i) && q(i)),
    ensures
        count_below(n, r) == count_below(n, p) + count_below(n, q),
    decreases n,
{
    if n > 0 {
        lemma_count_split((n - 1) as nat, p, q, r);
    }
}

/// A predicate that holds everywhere below `n` is counted `n` times, one
/// that holds nowhere is counted zero times.
pub proof fn lemma_count_extremes(n: nat, p: spec_fn(int) -> bool)
    ensures
        (forall|i: int| 0 <= i < n ==> #[trigger] p(i)) ==> count_below(n, p) == n,
        (forall|i: int| 0 <= i < n ==> !#[trigger] p(i)) ==> count_below(n, p) == 0,
    decreases n,
{
    if n > 0 {
        lemma_count_extremes((n - 1) as nat, p);
    }
}

/// A predicate that singles out at most the two indices `a` and `b` is
/// counted at most twice.
pub proof fn lemma_count_of_two(n: nat, p: spec_fn(int) -> bool, a: int, b: int)
    requires
        forall|i: int| 0 <= i < n && #[trigger] p(i) ==> i == a || i == b,
    ensures
        count_below(n, p) <= 2,
        a == b ==> count_below(n, p) <= 1,
    decreases n,
{
    if n > 0 {
        let m = (n - 1) as nat;
        if p(n - 1) {
            // the other index, if any, is the only one left below
            let other = if n - 1 == a {
                b
            } else {
                a
            };
            lemma_count_of_one(m, p, other, n - 1);
        } else {
            lemma_count_of_two(m, p, a, b);
        }
    }
}

/// A predicate that singles out at most the index `a`, and not `skip`, is
/// counted at most once, and not at all if `a` is `skip`.
pub proof fn lemma_count_of_one(n: nat, p: spec_fn(int) -> bool, a: int, skip: int)
    requires
        forall|i: int| 0 <= i < n && #[trigger] p(i) ==> i == a && i != skip,
    ensures
        count_below(n, p) <= 1,
        a == skip ==> count_below(n, p) == 0,
    decreases n,
{
    if n > 0 {
        let m = (n - 1) as nat;
        if p(n - 1) {
            assert forall|i: int| 0 <= i < m implies !#[trigger] p(i) by {}
            lemma_count_extremes(m, p);
        } else {
            lemma_count_of_one(m, p, a, skip);
        }
    }
}


/// `p` renumbers the indices `0 .. n`, and `q` undoes it: both map the range
/// into itself and each is the inverse of the other there.
pub open spec fn is_renumbering(n: int, p: spec_fn(int) -> int, q: spec_fn(int) -> int) -> bool {
    &&& forall|v: int| 0 <= v < n ==> 0 <= #[trigger] p(v) < n && q(p(v)) == v
    &&& forall|v: int| 0 <= v < n ==> 0 <= #[trigger] q(v) < n && p(q(v)) == v
}

/// A sum does not depend on the order of its terms: if `g` at the new index
/// of `v` is `f` at `v`, for every `v`, the two sums are equal.
pub proof fn lemma_sum_renumbered(
    n: nat,
    f: spec_fn(int) -> nat,
    g: spec_fn(int) -> nat,
    p: spec_fn(int) -> int,
    q: spec_fn(int) -> int,
)
    requires
        is_renumbering(n as int, p, q),
        forall|v: int| 0 <= v < n ==> g(#[trigger] p(v)) == f(v),
    ensures
        sum_below(n, f) == sum_below(n, g),
    decreases n,
{
    if n > 0 {
        let m = (n - 1) as nat;
        let last = p(m as int);
        assert(q(last) == m);
        if last == m {
            assert forall|v: int| 0 <= v < m implies 0 <= #[trigger] p(v) < m && q(p(v)) == v by {
                assert(q(p(v)) == v);
            }
            assert forall|v: int| 0 <= v < m implies 0 <= #[trigger] q(v) < m && p(q(v)) == v by {
                assert(p(q(v)) == v);
            }
            lemma_sum_renumbered(m, f, g, p, q);
        } else {
            let j = q(m as int);
            assert(p(j) == m);
            let moved = |v: int|
                if v == j {
                    last
                } else {
                    p(v)
                };
            let back = |w: int|
                if w == last {
                    j
                } else {
                    q(w)
                };
            let patched = |v: int|
                if v == j {
                    f(m as int)
                } else {
                    f(v)
                };
            assert forall|v: int| 0 <= v < m implies 0 <= #[trigger] moved(v) < m && back(moved(v))
                == v by {
                assert(q(p(v)) == v);
            }
            assert forall|w: int| 0 <= w < m implies 0 <= #[trigger] back(w) < m && moved(back(w))
                == w by {
                assert(p(q(w)) == w);
            }
            assert forall|v: int| 0 <= v < m implies g(#[trigger] moved(v)) == patched(v) by {
                if v != j {
                    assert(g(p(v)) == f(v));
                }
            }
            lemma_sum_renumbered(m, patched, g, moved, back);
            assert forall|i: int| 0 <= i < m && i != j implies #[trigger] f(i) == patched(i) by {}
            lemma_sum_changed_at(m, f, patched, j);
            assert(g(p(j)) == f(j));
        }
    }
}

/// A count does not depend on the numbering of what is counted.
pub proof fn lemma_count_renumbered(
    n: nat,
    a: spec_fn(int) -> bool,
    b: spec_fn(int) -> bool,
    p: spec_fn(int) -> int,
    q: spec_fn(int) -> int,
)
    requires
        is_renumbering(n as int, p, q),
        forall|v: int| 0 <= v < n ==> b(#[trigger] p(v)) == a(v),
    ensures
        count_below(n, a) == count_below(n, b),
{
    let f = |v: int|
        if a(v) {
            1nat
        } else {
            0nat
        };
    let g = |v: int|
        if b(v) {
            1nat
        } else {
            0nat
        };
    lemma_count_is_sum(n, a, f);
    lemma_count_is_sum(n, b, g);
    lemma_sum_renumbered(n, f, g, p, q);
}

/// The indices below `n` that satisfy `a`, as a set.
pub open spec fn indices_where(n: int, a: spec_fn(int) -> bool) -> Set<int> {
    Set::new(|v: int| 0 <= v < n && a(v))
}

/// The indices below `n` that satisfy `a` are finitely many, and as many as
/// the count says.
pub proof fn lemma_count_is_cardinality(n: nat, a: spec_fn(int) -> bool)
    ensures
        indices_where(n as int, a).finite(),
        indices_where(n as int, a).len() == count_below(n, a),
    decreases n,
{
    if n == 0 {
        assert(indices_where(n as int, a) =~= Set::<int>::empty());
    } else {
        let m = (n - 1) as nat;
        lemma_count_is_cardinality(m, a);
        if a(m as int) {
            assert(indices_where(n as int, a) =~= indices_where(m as int, a).insert(m as int));
        } else {
            assert(indices_where(n as int, a) =~= indices_where(m as int, a));
        }
    }
}

} // verus!
