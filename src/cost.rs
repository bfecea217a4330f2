//! All-pairs shortest distances and the diameter-based cost adjustment.
//!
//! A distance is `Some(d)` or `None` for "no path". The direct distances are
//! bounded so that every shortest distance is within `MAX_DISTANCE`, and an
//! adjusted weight (a distance times the diameter) fits in 64 bits.

use vstd::prelude::*;

verus! {

/// The largest distance the cost model represents.
pub const MAX_DISTANCE: u64 = 0xffff_ffff;

/// Position of cell `(i, j)` in a flattened `n`-by-`n` matrix.
pub open spec fn cell(i: int, j: int, n: int) -> int {
    i * n + j
}

pub proof fn lemma_cell(i: int, j: int, n: int)
    requires
        0 <= i < n,
        0 <= j < n,
    ensures
        0 <= cell(i, j, n) < n * n,
        cell(i, j, n) == i * n + j,
{
    assert(0 <= i * n + j < n * n) by (nonlinear_arith)
        requires
            0 <= i < n,
            0 <= j < n,
    ;
}

pub proof fn lemma_cell_injective(i: int, j: int, a: int, b: int, n: int)
    requires
        0 <= i < n,
        0 <= j < n,
        0 <= a < n,
        0 <= b < n,
        cell(i, j, n) == cell(a, b, n),
    ensures
        i == a,
        j == b,
{
    assert(i == a && j == b) by (nonlinear_arith)
        requires
            0 <= i < n,
            0 <= j < n,
            0 <= a < n,
            0 <= b < n,
            i * n + j == a * n + b,
    ;
}

/// The integer value of a distance (zero for "no path").
pub open spec fn val(d: Option<int>) -> int {
    match d {
        Some(v) => v,
        None => 0,
    }
}

/// A stored distance as a mathematical one.
pub open spec fn widen(d: Option<u64>) -> Option<int> {
    match d {
        Some(v) => Some(v as int),
        None => None,
    }
}

/// The distance from `i` to `j` after a detour through an intermediate node:
/// `ik` leads to it and `kj` away from it.
pub open spec fn relax(ij: Option<int>, ik: Option<int>, kj: Option<int>) -> Option<int> {
    match (ik, kj) {
        (Some(a), Some(b)) => match ij {
            Some(c) => if a + b < c {
                Some(a + b)
            } else {
                ij
            },
            None => Some(a + b),
        },
        _ => ij,
    }
}

/// The Floyd-Warshall recurrence: the distance from `i` to `j` over the
/// direct distances `base` when only nodes below `k` may be passed through.
/// With `k` the number of nodes it is the least weight of a path (see
/// `lemma_shortest_is_least`).
pub open spec fn shortest(base: spec_fn(int, int) -> Option<int>, k: int, i: int, j: int) -> Option<int>
    decreases k,
{
    if k <= 0 {
        base(i, j)
    } else {
        relax(shortest(base, k - 1, i, j), shortest(base, k - 1, i, k - 1), shortest(base, k - 1, k - 1, j))
    }
}

/// The direct distances held in the first component of a flattened matrix.
pub open spec fn direct(m: Seq<(Option<u64>, bool)>, n: int) -> spec_fn(int, int) -> Option<int> {
    |i: int, j: int| widen(m[cell(i, j, n)].0)
}

pub open spec fn within_bound(d: Option<int>) -> bool {
    match d {
        Some(v) => 0 <= v <= MAX_DISTANCE,
        None => true,
    }
}

/// Every direct distance between two of the `n` nodes is non-negative and
/// small enough that a path through all `n` nodes stays within
/// `MAX_DISTANCE`, and every node has a distance to itself.
pub open spec fn base_bounded(base: spec_fn(int, int) -> Option<int>, n: int) -> bool {
    &&& forall|i: int, j: int|
        0 <= i < n && 0 <= j < n ==> match #[trigger] base(i, j) {
            Some(v) => 0 <= v && n * v <= MAX_DISTANCE,
            None => true,
        }
    &&& forall|i: int| 0 <= i < n ==> (#[trigger] base(i, i)) is Some
}

/// `w` is a walk of at least one step over the `n` nodes along direct
/// distances.
pub open spec fn is_walk(base: spec_fn(int, int) -> Option<int>, n: int, w: Seq<int>) -> bool {
    &&& w.len() >= 2
    &&& forall|t: int| 0 <= t < w.len() ==> 0 <= #[trigger] w[t] < n
    &&& forall|t: int| 0 <= t < w.len() - 1 ==> (#[trigger] base(w[t], w[t + 1])) is Some
}

/// The total weight of a walk.
pub open spec fn walk_weight(base: spec_fn(int, int) -> Option<int>, w: Seq<int>) -> int
    decreases w.len(),
{
    if w.len() <= 1 {
        0
    } else {
        walk_weight(base, w.drop_last()) + val(base(w[w.len() - 2], w[w.len() - 1]))
    }
}

/// The nodes a walk passes through (all but its ends) lie below `k`.
pub open spec fn inner_below(w: Seq<int>, k: int) -> bool {
    forall|t: int| 0 < t < w.len() - 1 ==> #[trigger] w[t] < k
}

/// `d` is the diameter of the distances `dist` over `n` nodes: the largest
/// finite distance, or zero when there is none.
pub open spec fn is_diameter(dist: spec_fn(int, int) -> Option<int>, n: int, d: u64) -> bool {
    &&& forall|i: int, j: int|
        0 <= i < n && 0 <= j < n ==> match #[trigger] dist(i, j) {
            Some(v) => v <= d,
            None => true,
        }
    &&& (d == 0 || exists|i: int, j: int| 0 <= i < n && 0 <= j < n && #[trigger] dist(i, j) == Some(d as int))
}

/// The distances over the direct distances of a flattened `n`-by-`n` matrix.
pub open spec fn distances(m: Seq<(Option<u64>, bool)>, n: int) -> spec_fn(int, int) -> Option<int> {
    |i: int, j: int| shortest(direct(m, n), n, i, j)
}

/// The diameter of the distances `dist` over `n` nodes.
pub open spec fn diameter_of(dist: spec_fn(int, int) -> Option<int>, n: int) -> u64 {
    choose|d: u64| is_diameter(dist, n, d)
}

pub proof fn lemma_diameter_unique(dist: spec_fn(int, int) -> Option<int>, n: int, d1: u64, d2: u64)
    requires
        is_diameter(dist, n, d1),
        is_diameter(dist, n, d2),
    ensures
        d1 == d2,
{
    if d1 != 0 {
        let (a, b) = choose|a: int, b: int| 0 <= a < n && 0 <= b < n && #[trigger] dist(a, b) == Some(d1 as int);
        assert(d1 <= d2);
    }
    if d2 != 0 {
        let (a, b) = choose|a: int, b: int| 0 <= a < n && 0 <= b < n && #[trigger] dist(a, b) == Some(d2 as int);
        assert(d2 <= d1);
    }
}

/// The weight a cell gets once the distances are known: an original edge keeps
/// its weight; another pair gets its distance times the diameter, or the
/// diameter squared when no path joins it.
pub open spec fn adjusted_weight(raw: (Option<u64>, bool), dist: Option<int>, diameter: u64) -> int {
    if raw.1 {
        match raw.0 {
            Some(w) => w as int,
            None => 0,
        }
    } else {
        match dist {
            Some(d) => d * diameter,
            None => diameter * diameter,
        }
    }
}

pub proof fn lemma_shortest_nonneg(base: spec_fn(int, int) -> Option<int>, n: int, k: int, i: int, j: int)
    requires
        base_bounded(base, n),
        0 <= i < n,
        0 <= j < n,
        k <= n,
    ensures
        shortest(base, k, i, j) matches Some(v) ==> v >= 0,
    decreases k,
{
    if k > 0 {
        lemma_shortest_nonneg(base, n, k - 1, i, j);
        lemma_shortest_nonneg(base, n, k - 1, i, k - 1);
        lemma_shortest_nonneg(base, n, k - 1, k - 1, j);
    }
}

/// The recurrence never exceeds the direct distance.
pub proof fn lemma_shortest_le_base(base: spec_fn(int, int) -> Option<int>, k: int, i: int, j: int)
    requires
        base(i, j) is Some,
    ensures
        shortest(base, k, i, j) is Some,
        val(shortest(base, k, i, j)) <= val(base(i, j)),
    decreases k,
{
    if k > 0 {
        lemma_shortest_le_base(base, k - 1, i, j);
    }
}

/// A round through intermediate `k` leaves row `k` and column `k` unchanged.
pub proof fn lemma_pivot_stable(base: spec_fn(int, int) -> Option<int>, n: int, k: int, i: int)
    requires
        base_bounded(base, n),
        0 <= k < n,
        0 <= i < n,
    ensures
        shortest(base, k + 1, i, k) == shortest(base, k, i, k),
        shortest(base, k + 1, k, i) == shortest(base, k, k, i),
{
    lemma_shortest_nonneg(base, n, k, k, k);
}

proof fn lemma_weight_split(base: spec_fn(int, int) -> Option<int>, w: Seq<int>, p: int)
    requires
        0 <= p < w.len(),
    ensures
        walk_weight(base, w) == walk_weight(base, w.subrange(0, p + 1)) + walk_weight(base, w.subrange(p, w.len() as int)),
    decreases w.len(),
{
    if p == w.len() - 1 {
        assert(w.subrange(0, p + 1) =~= w);
    } else {
        let d = w.drop_last();
        lemma_weight_split(base, d, p);
        assert(w.subrange(0, p + 1) =~= d.subrange(0, p + 1));
        let s = w.subrange(p, w.len() as int);
        assert(s.drop_last() =~= d.subrange(p, d.len() as int));
        assert(s[s.len() - 2] == w[w.len() - 2]);
        assert(s[s.len() - 1] == w[w.len() - 1]);
    }
}

proof fn lemma_weight_bounds(base: spec_fn(int, int) -> Option<int>, n: int, w: Seq<int>)
    requires
        base_bounded(base, n),
        forall|t: int| 0 <= t < w.len() ==> 0 <= #[trigger] w[t] < n,
    ensures
        walk_weight(base, w) >= 0,
        w.len() >= 1 ==> n * walk_weight(base, w) <= (w.len() - 1) * MAX_DISTANCE,
    decreases w.len(),
{
    if w.len() > 1 {
        let d = w.drop_last();
        lemma_weight_bounds(base, n, d);
        let a = w[w.len() - 2];
        let b = w[w.len() - 1];
        let v = val(base(a, b));
        assert(0 <= v && n * v <= MAX_DISTANCE);
        let x = walk_weight(base, d);
        assert(n * (x + v) <= (w.len() - 1) * MAX_DISTANCE) by (nonlinear_arith)
            requires
                n * x <= (w.len() - 2) * MAX_DISTANCE,
                n * v <= MAX_DISTANCE,
        ;
    }
}

/// A finite value of the recurrence is the weight of a walk from `i` to `j`
/// through nodes below `k`.
proof fn lemma_walk_of_shortest(base: spec_fn(int, int) -> Option<int>, n: int, k: int, i: int, j: int)
    requires
        0 <= i < n,
        0 <= j < n,
        0 <= k <= n,
        shortest(base, k, i, j) is Some,
    ensures
        exists|w: Seq<int>|
            is_walk(base, n, w) && w[0] == i && w[w.len() - 1] == j && inner_below(w, k) && #[trigger] walk_weight(base, w)
                == val(shortest(base, k, i, j)),
    decreases k,
{
    if k == 0 {
        let w = seq![i, j];
        assert(w.drop_last() =~= seq![i]);
        assert(walk_weight(base, seq![i]) == 0);
        assert(shortest(base, 0, i, j) == base(i, j));
        assert(walk_weight(base, w) == val(base(i, j)));
        assert(is_walk(base, n, w));
        assert(inner_below(w, k));
    } else {
        let prev = shortest(base, k - 1, i, j);
        if shortest(base, k, i, j) == prev {
            lemma_walk_of_shortest(base, n, k - 1, i, j);
            let w = choose|w: Seq<int>|
                is_walk(base, n, w) && w[0] == i && w[w.len() - 1] == j && inner_below(w, k - 1) && #[trigger] walk_weight(
                    base,
                    w,
                ) == val(prev);
            assert(inner_below(w, k));
        } else {
            lemma_walk_of_shortest(base, n, k - 1, i, k - 1);
            lemma_walk_of_shortest(base, n, k - 1, k - 1, j);
            let w1 = choose|w: Seq<int>|
                is_walk(base, n, w) && w[0] == i && w[w.len() - 1] == k - 1 && inner_below(w, k - 1) && #[trigger] walk_weight(
                    base,
                    w,
                ) == val(shortest(base, k - 1, i, k - 1));
            let w2 = choose|w: Seq<int>|
                is_walk(base, n, w) && w[0] == k - 1 && w[w.len() - 1] == j && inner_below(w, k - 1) && #[trigger] walk_weight(
                    base,
                    w,
                ) == val(shortest(base, k - 1, k - 1, j));
            let w = w1 + w2.subrange(1, w2.len() as int);
            let p = w1.len() - 1;
            assert(w.subrange(0, p + 1) =~= w1);
            assert(w.subrange(p, w.len() as int) =~= w2);
            lemma_weight_split(base, w, p);
            assert forall|t: int| 0 <= t < w.len() - 1 implies (#[trigger] base(w[t], w[t + 1])) is Some by {
                if t < p {
                    assert(w[t] == w1[t] && w[t + 1] == w1[t + 1]);
                } else {
                    assert(w[t] == w2[t - p] && w[t + 1] == w2[t - p + 1]);
                }
            }
            assert forall|t: int| 0 <= t < w.len() implies 0 <= #[trigger] w[t] < n by {
                if t < p + 1 {
                    assert(w[t] == w1[t]);
                } else {
                    assert(w[t] == w2[t - p]);
                }
            }
            assert forall|t: int| 0 < t < w.len() - 1 implies #[trigger] w[t] < k by {
                if t < p {
                    assert(w[t] == w1[t]);
                } else if t == p {
                } else {
                    assert(w[t] == w2[t - p]);
                }
            }
            assert(w[0] == w1[0]);
            assert(w[w.len() - 1] == w2[w2.len() - 1]);
            assert(is_walk(base, n, w));
            assert(inner_below(w, k));
            assert(walk_weight(base, w) == walk_weight(base, w1) + walk_weight(base, w2));
            assert(walk_weight(base, w) == val(shortest(base, k, i, j)));
        }
    }
}

/// The recurrence is at most the weight of any walk through nodes below `k`.
proof fn lemma_shortest_le_walk(base: spec_fn(int, int) -> Option<int>, n: int, k: int, w: Seq<int>)
    requires
        base_bounded(base, n),
        is_walk(base, n, w),
        inner_below(w, k),
        0 <= k <= n,
    ensures
        shortest(base, k, w[0], w[w.len() - 1]) is Some,
        val(shortest(base, k, w[0], w[w.len() - 1])) <= walk_weight(base, w),
    decreases k, w.len(),
{
    let i = w[0];
    let j = w[w.len() - 1];
    if k == 0 {
        if w.len() > 2 {
            assert(w[1] < 0);
        }
        assert(w.len() == 2);
        assert(w.drop_last() =~= seq![i]);
        assert(walk_weight(base, w.drop_last()) == 0);
        assert(shortest(base, 0, i, j) == base(i, j));
        assert(walk_weight(base, w) == val(base(i, j)));
    } else if exists|t: int| 0 < t < w.len() - 1 && #[trigger] w[t] == k - 1 {
        let t = choose|t: int| 0 < t < w.len() - 1 && #[trigger] w[t] == k - 1;
        let pre = w.subrange(0, t + 1);
        let suf = w.subrange(t, w.len() as int);
        lemma_weight_split(base, w, t);
        assert forall|q: int| 0 <= q < pre.len() - 1 implies (#[trigger] base(pre[q], pre[q + 1])) is Some by {
            assert(pre[q] == w[q] && pre[q + 1] == w[q + 1]);
        }
        assert forall|q: int| 0 <= q < suf.len() - 1 implies (#[trigger] base(suf[q], suf[q + 1])) is Some by {
            assert(suf[q] == w[q + t] && suf[q + 1] == w[q + t + 1]);
        }
        assert forall|q: int| 0 < q < suf.len() - 1 implies #[trigger] suf[q] < k by {
            assert(suf[q] == w[q + t]);
        }
        assert(pre[0] == i && pre[pre.len() - 1] == k - 1);
        assert(suf[0] == k - 1 && suf[suf.len() - 1] == j);
        lemma_shortest_le_walk(base, n, k, pre);
        lemma_shortest_le_walk(base, n, k, suf);
        lemma_pivot_stable(base, n, k - 1, i);
        lemma_pivot_stable(base, n, k - 1, j);
        let a = shortest(base, k - 1, i, k - 1);
        let b = shortest(base, k - 1, k - 1, j);
        assert(a is Some && b is Some);
        assert(val(a) <= walk_weight(base, pre));
        assert(val(b) <= walk_weight(base, suf));
        assert(val(shortest(base, k, i, j)) <= val(a) + val(b));
    } else {
        assert(inner_below(w, k - 1));
        lemma_shortest_le_walk(base, n, k - 1, w);
        assert(val(shortest(base, k, i, j)) <= val(shortest(base, k - 1, i, j)));
    }
}

/// Removing the cycle between two visits of one node keeps a walk with the
/// same ends and no more weight.
#[verifier::rlimit(40)]
proof fn lemma_cut(base: spec_fn(int, int) -> Option<int>, n: int, w: Seq<int>, a: int, b: int)
    requires
        base_bounded(base, n),
        is_walk(base, n, w),
        w[0] != w[w.len() - 1],
        0 <= a < b < w.len(),
        w[a] == w[b],
    ensures
        ({
        let v = w.subrange(0, a) + w.subrange(b, w.len() as int);
        &&& is_walk(base, n, v)
        &&& v[0] == w[0]
        &&& v[v.len() - 1] == w[w.len() - 1]
        &&& v.len() < w.len()
        &&& walk_weight(base, v) <= walk_weight(base, w)
        &&& forall|q: int| 0 <= q < v.len() ==> w.contains(#[trigger] v[q])
    }),
{
    let v = w.subrange(0, a) + w.subrange(b, w.len() as int);
    assert(v.subrange(0, a + 1) =~= w.subrange(0, a + 1)) by {
        assert forall|q: int| 0 <= q < a + 1 implies v[q] == w[q] by {
            if q == a {
                assert(v[q] == w[b]);
            }
        }
    }
    assert(v.subrange(a, v.len() as int) =~= w.subrange(b, w.len() as int));
    lemma_weight_split(base, v, a);
    lemma_weight_split(base, w, a);
    let mid = w.subrange(a, w.len() as int);
    lemma_weight_split(base, mid, b - a);
    assert(mid.subrange(b - a, mid.len() as int) =~= w.subrange(b, w.len() as int));
    lemma_weight_bounds(base, n, mid.subrange(0, b - a + 1));
    assert forall|q: int| 0 <= q < v.len() implies 0 <= #[trigger] v[q] < n by {
        if q < a {
            assert(v[q] == w[q]);
        } else {
            assert(v[q] == w[q - a + b]);
        }
    }
    assert forall|q: int| 0 <= q < v.len() - 1 implies (#[trigger] base(v[q], v[q + 1])) is Some by {
        if q + 1 < a {
            assert(v[q] == w[q] && v[q + 1] == w[q + 1]);
        } else if q + 1 == a {
            assert(v[q] == w[q] && v[q + 1] == w[b] && w[b] == w[a]);
        } else {
            assert(v[q] == w[q - a + b] && v[q + 1] == w[q - a + b + 1]);
        }
    }
    assert(v[0] == w[0]) by {
        if a == 0 {
            assert(v[0] == w[b]);
        }
    }
    assert(v[v.len() - 1] == w[w.len() - 1]);
    assert(v.len() >= 2) by {
        if v.len() < 2 {
            assert(v[0] == v[v.len() - 1]);
        }
    }
    assert forall|q: int| 0 <= q < v.len() implies w.contains(#[trigger] v[q]) by {
        if q < a {
            assert(v[q] == w[q]);
        } else {
            assert(v[q] == w[q - a + b]);
        }
    }
}

/// Cutting the cycles out of a walk between two different nodes leaves a
/// walk without repeated nodes, over the same nodes, and no heavier.
proof fn lemma_shortcut(base: spec_fn(int, int) -> Option<int>, n: int, w: Seq<int>)
    requires
        base_bounded(base, n),
        is_walk(base, n, w),
        w[0] != w[w.len() - 1],
    ensures
        exists|s: Seq<int>|
            is_walk(base, n, s) && s[0] == w[0] && s[s.len() - 1] == w[w.len() - 1] && s.no_duplicates() && (forall|t: int|
                0 <= t < s.len() ==> w.contains(#[trigger] s[t])) && #[trigger] walk_weight(base, s) <= walk_weight(base, w),
    decreases w.len(),
{
    if w.no_duplicates() {
        assert(forall|t: int| 0 <= t < w.len() ==> w.contains(#[trigger] w[t]));
    } else {
        let (x, y) = choose|x: int, y: int| 0 <= x < w.len() && 0 <= y < w.len() && x != y && w[x] == w[y];
        let a = if x < y { x } else { y };
        let b = if x < y { y } else { x };
        let v = w.subrange(0, a) + w.subrange(b, w.len() as int);
        lemma_cut(base, n, w, a, b);
        lemma_shortcut(base, n, v);
        let s = choose|s: Seq<int>|
            is_walk(base, n, s) && s[0] == v[0] && s[s.len() - 1] == v[v.len() - 1] && s.no_duplicates() && (forall|t: int|
                0 <= t < s.len() ==> v.contains(#[trigger] s[t])) && #[trigger] walk_weight(base, s) <= walk_weight(base, v);
        assert forall|t: int| 0 <= t < s.len() implies w.contains(#[trigger] s[t]) by {
            assert(v.contains(s[t]));
        }
        assert(walk_weight(base, s) <= walk_weight(base, w));
        assert(s[0] == w[0] && s[s.len() - 1] == w[w.len() - 1]);
    }
}

/// With `k` the number of nodes, the recurrence gives the least weight of a
/// walk from `i` to `j` (and no value when no walk joins them), and that
/// value is within `MAX_DISTANCE`.
pub proof fn lemma_shortest_is_least(base: spec_fn(int, int) -> Option<int>, n: int, i: int, j: int)
    requires
        base_bounded(base, n),
        0 <= i < n,
        0 <= j < n,
    ensures
        shortest(base, n, i, j) is Some <==> exists|w: Seq<int>| is_walk(base, n, w) && w[0] == i && w[w.len() - 1] == j,
        shortest(base, n, i, j) is Some ==> exists|w: Seq<int>|
            is_walk(base, n, w) && w[0] == i && w[w.len() - 1] == j && #[trigger] walk_weight(base, w) == val(
                shortest(base, n, i, j),
            ),
        forall|w: Seq<int>|
            is_walk(base, n, w) && w[0] == i && w[w.len() - 1] == j ==> val(shortest(base, n, i, j)) <= #[trigger] walk_weight(
                base,
                w,
            ),
        within_bound(shortest(base, n, i, j)),
{
    if shortest(base, n, i, j) is Some {
        lemma_walk_of_shortest(base, n, n, i, j);
    }
    assert forall|w: Seq<int>| is_walk(base, n, w) && w[0] == i && w[w.len() - 1] == j implies val(
        shortest(base, n, i, j),
    ) <= #[trigger] walk_weight(base, w) by {
        assert(inner_below(w, n));
        lemma_shortest_le_walk(base, n, n, w);
    }
    if exists|w: Seq<int>| is_walk(base, n, w) && w[0] == i && w[w.len() - 1] == j {
        let w = choose|w: Seq<int>| is_walk(base, n, w) && w[0] == i && w[w.len() - 1] == j;
        assert(inner_below(w, n));
        lemma_shortest_le_walk(base, n, n, w);
    }
    lemma_shortest_bounded(base, n, n, i, j);
}

pub proof fn lemma_shortest_bounded(base: spec_fn(int, int) -> Option<int>, n: int, k: int, i: int, j: int)
    requires
        base_bounded(base, n),
        0 <= i < n,
        0 <= j < n,
        0 <= k <= n,
    ensures
        within_bound(shortest(base, k, i, j)),
{
    lemma_shortest_nonneg(base, n, k, i, j);
    if shortest(base, k, i, j) is Some {
        if i == j {
            lemma_shortest_le_base(base, k, i, i);
            let v = val(base(i, i));
            assert(v <= MAX_DISTANCE) by (nonlinear_arith)
                requires
                    n * v <= MAX_DISTANCE,
                    n >= 1,
                    v >= 0,
            ;
        } else {
            lemma_walk_of_shortest(base, n, k, i, j);
            let w = choose|w: Seq<int>|
                is_walk(base, n, w) && w[0] == i && w[w.len() - 1] == j && inner_below(w, k) && #[trigger] walk_weight(base, w)
                    == val(shortest(base, k, i, j));
            lemma_shortcut(base, n, w);
            let s = choose|s: Seq<int>|
                is_walk(base, n, s) && s[0] == w[0] && s[s.len() - 1] == w[w.len() - 1] && s.no_duplicates() && (forall|t: int|
                    0 <= t < s.len() ==> w.contains(#[trigger] s[t])) && #[trigger] walk_weight(base, s) <= walk_weight(base, w);
            assert forall|t: int| 0 < t < s.len() - 1 implies #[trigger] s[t] < k by {
                assert(w.contains(s[t]));
                let q = choose|q: int| 0 <= q < w.len() && w[q] == s[t];
                if q == 0 {
                    assert(s[t] == s[0]);
                } else if q == w.len() - 1 {
                    assert(s[t] == s[s.len() - 1]);
                }
            }
            lemma_shortest_le_walk(base, n, k, s);
            lemma_weight_bounds(base, n, s);
            lemma_distinct_len(s, n);
            let x = walk_weight(base, s);
            let l = s.len() as int;
            assert(x <= MAX_DISTANCE) by (nonlinear_arith)
                requires
                    n * x <= (l - 1) * MAX_DISTANCE,
                    l <= n,
                    n >= 1,
            ;
        }
    }
}

/// A sequence of distinct nodes below `n` has at most `n` entries.
proof fn lemma_distinct_len(s: Seq<int>, n: int)
    requires
        0 <= n,
        s.no_duplicates(),
        forall|t: int| 0 <= t < s.len() ==> 0 <= #[trigger] s[t] < n,
    ensures
        s.len() <= n,
{
    s.unique_seq_to_set();
    let r = vstd::set_lib::set_int_range(0, n);
    vstd::set_lib::lemma_int_range(0, n);
    assert(s.to_set().subset_of(r));
    vstd::set_lib::lemma_len_subset(s.to_set(), r);
}

/// Over symmetric direct distances, distances are symmetric.
pub proof fn lemma_shortest_symmetric(base: spec_fn(int, int) -> Option<int>, n: int, k: int, i: int, j: int)
    requires
        forall|a: int, b: int| 0 <= a < n && 0 <= b < n ==> #[trigger] base(a, b) == base(b, a),
        0 <= i < n,
        0 <= j < n,
        k <= n,
    ensures
        shortest(base, k, i, j) == shortest(base, k, j, i),
    decreases k,
{
    if k > 0 {
        lemma_shortest_symmetric(base, n, k - 1, i, j);
        lemma_shortest_symmetric(base, n, k - 1, i, k - 1);
        lemma_shortest_symmetric(base, n, k - 1, k - 1, j);
    }
}

/// Computes the all-pairs distances of a graph and adjusts its cost matrix.
#[derive(Debug)]
pub struct Cost {
    floyd_warshall_matrix: Vec<Option<u64>>,
}

impl Cost {
    pub closed spec fn matrix(&self) -> Seq<Option<u64>> {
        self.floyd_warshall_matrix@
    }

    pub fn new() -> (r: Self)
        ensures
            r.matrix().len() == 0,
    {
        Cost { floyd_warshall_matrix: Vec::new() }
    }

    /// Adjusts the `n`-by-`n` matrix `edges` of (direct distance, is-original)
    /// cells: every cell that is not an original edge gets its distance times
    /// the diameter, or the diameter squared where no path exists.
    pub fn calculate_edges(&mut self, n: usize, edges: &Vec<(Option<u64>, bool)>) -> (r: Vec<(u64, bool)>)
        requires
            edges@.len() == n * n,
            base_bounded(direct(edges@, n as int), n as int),
            forall|x: int| 0 <= x < edges@.len() && (#[trigger] edges@[x]).1 ==> edges@[x].0 is Some,
        ensures
            r@.len() == n * n,
            final(self).matrix().len() == n * n,
            forall|a: int, b: int|
                0 <= a < n && 0 <= b < n ==> widen(#[trigger] final(self).matrix()[cell(a, b, n as int)]) == shortest(
                    direct(edges@, n as int),
                    n as int,
                    a,
                    b,
                ),
            is_diameter(distances(edges@, n as int), n as int, diameter_of(distances(edges@, n as int), n as int)),
            diameter_of(distances(edges@, n as int), n as int) <= MAX_DISTANCE,
            forall|i: int, j: int|
                0 <= i < n && 0 <= j < n ==> {
                    let x = cell(i, j, n as int);
                    &&& (#[trigger] r@[cell(i, j, n as int)]).1 == edges@[x].1
                    &&& r@[x].0 as int == adjusted_weight(
                        edges@[x],
                        shortest(direct(edges@, n as int), n as int, i, j),
                        diameter_of(distances(edges@, n as int), n as int),
                    )
                },
    {
        let fw = self.get_floyd_warshall_matrix(n, edges);
        proof {
            assert forall|a: int, b: int| 0 <= a < n && 0 <= b < n implies within_bound(
                widen(#[trigger] self.matrix()[cell(a, b, n as int)]),
            ) by {
                lemma_shortest_bounded(direct(edges@, n as int), n as int, n as int, a, b);
            }
        }
        let diameter = self.get_diameter(n);
        proof {
            let dist = distances(edges@, n as int);
            let f = |a: int, b: int| widen(self.matrix()[cell(a, b, n as int)]);
            assert forall|a: int, b: int| 0 <= a < n && 0 <= b < n implies match #[trigger] dist(a, b) {
                Some(v) => v <= diameter,
                None => true,
            } by {
                assert(f(a, b) == dist(a, b));
            }
            if diameter != 0 {
                let (a, b) = choose|a: int, b: int| 0 <= a < n && 0 <= b < n && #[trigger] f(a, b) == Some(diameter as int);
                assert(dist(a, b) == Some(diameter as int));
            }
            assert(is_diameter(dist, n as int, diameter));
            lemma_diameter_unique(dist, n as int, diameter, diameter_of(dist, n as int));
        }
        let total = edges.len();
        assert(total == n * n);
        let mut out: Vec<(u64, bool)> = Vec::new();
        let ghost base = direct(edges@, n as int);
        let mut i: usize = 0;
        while i < n
            invariant
                0 <= i <= n,
                fw@.len() == n * n,
                n * n <= usize::MAX,
                self.matrix() == fw@,
                base == direct(edges@, n as int),
                edges@.len() == n * n,
                base_bounded(base, n as int),
                forall|x: int| 0 <= x < edges@.len() && (#[trigger] edges@[x]).1 ==> edges@[x].0 is Some,
                diameter == diameter_of(distances(edges@, n as int), n as int),
                diameter <= MAX_DISTANCE,
                forall|a: int, b: int|
                    0 <= a < n && 0 <= b < n ==> widen(#[trigger] fw@[cell(a, b, n as int)]) == shortest(
                        base,
                        n as int,
                        a,
                        b,
                    ),
                out@.len() == i * n,
                forall|a: int, b: int|
                    0 <= a < i && 0 <= b < n ==> {
                        let x = cell(a, b, n as int);
                        &&& (#[trigger] out@[cell(a, b, n as int)]).1 == edges@[x].1
                        &&& out@[x].0 as int == adjusted_weight(edges@[x], shortest(base, n as int, a, b), diameter)
                    },
            decreases n - i,
        {
            let mut j: usize = 0;
            while j < n
                invariant
                    0 <= i < n,
                    0 <= j <= n,
                    self.matrix() == fw@,
                    fw@.len() == n * n,
                    n * n <= usize::MAX,
                    base == direct(edges@, n as int),
                    edges@.len() == n * n,
                    base_bounded(base, n as int),
                    forall|x: int| 0 <= x < edges@.len() && (#[trigger] edges@[x]).1 ==> edges@[x].0 is Some,
                    diameter <= MAX_DISTANCE,
                    forall|a: int, b: int|
                        0 <= a < n && 0 <= b < n ==> widen(#[trigger] fw@[cell(a, b, n as int)]) == shortest(
                            base,
                            n as int,
                            a,
                            b,
                        ),
                    out@.len() == i * n + j,
                    forall|a: int, b: int|
                        0 <= a <= i && 0 <= b < n && cell(a, b, n as int) < i * n + j ==> {
                            let x = cell(a, b, n as int);
                            &&& (#[trigger] out@[cell(a, b, n as int)]).1 == edges@[x].1
                            &&& out@[x].0 as int == adjusted_weight(
                                edges@[x],
                                shortest(base, n as int, a, b),
                                diameter,
                            )
                        },
                decreases n - j,
            {
                proof {
                    lemma_cell(i as int, j as int, n as int);
                    lemma_shortest_bounded(base, n as int, n as int, i as int, j as int);
                }
                let x = i * n + j;
                let c = edges[x];
                let w: u64 = if c.1 {
                    match c.0 {
                        Some(w) => w,
                        None => 0,
                    }
                } else {
                    match fw[x] {
                        Some(d) => {
                            assert(d * diameter <= MAX_DISTANCE * MAX_DISTANCE) by (nonlinear_arith)
                                requires
                                    d <= MAX_DISTANCE,
                                    diameter <= MAX_DISTANCE,
                            ;
                            d * diameter
                        },
                        None => {
                            assert(diameter * diameter <= MAX_DISTANCE * MAX_DISTANCE) by (nonlinear_arith)
                                requires
                                    diameter <= MAX_DISTANCE,
                            ;
                            diameter * diameter
                        },
                    }
                };
                out.push((w, c.1));
                proof {
                    assert forall|a: int, b: int|
                        0 <= a <= i && 0 <= b < n && cell(a, b, n as int) < i * n + j + 1 implies {
                            let y = cell(a, b, n as int);
                            &&& (#[trigger] out@[cell(a, b, n as int)]).1 == edges@[y].1
                            &&& out@[y].0 as int == adjusted_weight(
                                edges@[y],
                                shortest(base, n as int, a, b),
                                diameter,
                            )
                        } by {
                        lemma_cell(a, b, n as int);
                        if cell(a, b, n as int) == x {
                            lemma_cell_injective(a, b, i as int, j as int, n as int);
                        }
                    }
                }
                j = j + 1;
            }
            proof {
                assert forall|a: int, b: int| 0 <= a < i + 1 && 0 <= b < n implies #[trigger] cell(a, b, n as int) < i * n + n by {
                    assert(a * n + b < i * n + n) by (nonlinear_arith)
                        requires
                            0 <= a < i + 1,
                            0 <= b < n,
                    ;
                }
                assert((i + 1) * n == i * n + n) by (nonlinear_arith);
            }
            i = i + 1;
        }
        out
    }

    /// Runs Floyd-Warshall over the direct distances of `edges`.
    fn get_floyd_warshall_matrix(&mut self, n: usize, edges: &Vec<(Option<u64>, bool)>) -> (r: Vec<Option<u64>>)
        requires
            edges@.len() == n * n,
            base_bounded(direct(edges@, n as int), n as int),
        ensures
            r@.len() == n * n,
            final(self).matrix() == r@,
            forall|a: int, b: int|
                0 <= a < n && 0 <= b < n ==> widen(#[trigger] r@[cell(a, b, n as int)]) == shortest(
                    direct(edges@, n as int),
                    n as int,
                    a,
                    b,
                ),
    {
        let ghost base = direct(edges@, n as int);
        let total = edges.len();
        assert(total == n * n);
        let mut d: Vec<Option<u64>> = Vec::new();
        let mut x: usize = 0;
        while x < edges.len()
            invariant
                0 <= x <= edges@.len(),
                d@.len() == x,
                forall|y: int| 0 <= y < x ==> #[trigger] d@[y] == edges@[y].0,
            decreases edges@.len() - x,
        {
            d.push(edges[x].0);
            x = x + 1;
        }
        proof {
            assert forall|a: int, b: int| 0 <= a < n && 0 <= b < n implies widen(#[trigger] d@[cell(a, b, n as int)])
                == shortest(base, 0, a, b) by {
                lemma_cell(a, b, n as int);
            }
        }
        let mut k: usize = 0;
        while k < n
            invariant
                0 <= k <= n,
                d@.len() == n * n,
                n * n <= usize::MAX,
                base == direct(edges@, n as int),
                base_bounded(base, n as int),
                forall|a: int, b: int|
                    0 <= a < n && 0 <= b < n ==> widen(#[trigger] d@[cell(a, b, n as int)]) == shortest(base, k as int, a, b),
            decreases n - k,
        {
            let mut i: usize = 0;
            while i < n
                invariant
                    0 <= k < n,
                    0 <= i <= n,
                    d@.len() == n * n,
                    n * n <= usize::MAX,
                    base_bounded(base, n as int),
                    forall|a: int, b: int|
                        0 <= a < n && 0 <= b < n ==> widen(#[trigger] d@[cell(a, b, n as int)]) == if a < i {
                            shortest(base, k + 1, a, b)
                        } else {
                            shortest(base, k as int, a, b)
                        },
                decreases n - i,
            {
                let mut j: usize = 0;
                while j < n
                    invariant
                        0 <= k < n,
                        0 <= i < n,
                        0 <= j <= n,
                        d@.len() == n * n,
                        n * n <= usize::MAX,
                        base_bounded(base, n as int),
                        forall|a: int, b: int|
                            0 <= a < n && 0 <= b < n ==> widen(#[trigger] d@[cell(a, b, n as int)]) == if a < i || (a
                                == i && b < j) {
                                shortest(base, k + 1, a, b)
                            } else {
                                shortest(base, k as int, a, b)
                            },
                    decreases n - j,
                {
                    proof {
                        lemma_cell(i as int, j as int, n as int);
                        lemma_cell(i as int, k as int, n as int);
                        lemma_cell(k as int, j as int, n as int);
                        lemma_pivot_stable(base, n as int, k as int, i as int);
                        lemma_pivot_stable(base, n as int, k as int, j as int);
                        lemma_shortest_bounded(base, n as int, k as int, i as int, k as int);
                        lemma_shortest_bounded(base, n as int, k as int, k as int, j as int);
                        lemma_shortest_bounded(base, n as int, k as int, i as int, j as int);
                    }
                    let ik = d[i * n + k];
                    let kj = d[k * n + j];
                    let ij = d[i * n + j];
                    let ghost old_d = d@;
                    match (ik, kj) {
                        (Some(a), Some(b)) => {
                            let via = a + b;
                            let better = match ij {
                                Some(c) => via < c,
                                None => true,
                            };
                            if better {
                                d.set(i * n + j, Some(via));
                            }
                        },
                        _ => {},
                    }
                    proof {
                        assert(widen(d@[cell(i as int, j as int, n as int)]) == shortest(base, k + 1, i as int, j as int));
                        assert forall|a: int, b: int| 0 <= a < n && 0 <= b < n implies widen(#[trigger] d@[cell(
                            a,
                            b,
                            n as int,
                        )]) == if a < i || (a == i && b < j + 1) {
                            shortest(base, k + 1, a, b)
                        } else {
                            shortest(base, k as int, a, b)
                        } by {
                            lemma_cell(a, b, n as int);
                            if cell(a, b, n as int) == cell(i as int, j as int, n as int) {
                                lemma_cell_injective(a, b, i as int, j as int, n as int);
                            } else {
                                assert(d@[cell(a, b, n as int)] == old_d[cell(a, b, n as int)]);
                            }
                        }
                    }
                    j = j + 1;
                }
                i = i + 1;
            }
            k = k + 1;
        }
        self.floyd_warshall_matrix = d.clone();
        d
    }

    /// The largest finite distance of the computed matrix, or zero.
    pub fn get_diameter(&self, n: usize) -> (r: u64)
        requires
            self.matrix().len() == n * n,
            forall|a: int, b: int| 0 <= a < n && 0 <= b < n ==> within_bound(widen(#[trigger] self.matrix()[cell(a, b, n as int)])),
        ensures
            is_diameter(|a: int, b: int| widen(self.matrix()[cell(a, b, n as int)]), n as int, r),
            r <= MAX_DISTANCE,
    {
        let ghost m = self.matrix();
        let ghost f = |a: int, b: int| widen(m[cell(a, b, n as int)]);
        let total = self.floyd_warshall_matrix.len();
        assert(total == n * n);
        let mut diameter: u64 = 0;
        let mut i: usize = 0;
        while i < n
            invariant
                0 <= i <= n,
                m == self.matrix(),
                m.len() == n * n,
                n * n <= usize::MAX,
                f == (|a: int, b: int| widen(m[cell(a, b, n as int)])),
                forall|a: int, b: int| 0 <= a < n && 0 <= b < n ==> within_bound(widen(#[trigger] m[cell(a, b, n as int)])),
                diameter <= MAX_DISTANCE,
                forall|a: int, b: int|
                    0 <= a < i && 0 <= b < n ==> match #[trigger] f(a, b) {
                        Some(v) => v <= diameter,
                        None => true,
                    },
                diameter == 0 || exists|a: int, b: int| 0 <= a < n && 0 <= b < n && #[trigger] f(a, b) == Some(diameter as int),
            decreases n - i,
        {
            let mut j: usize = 0;
            while j < n
                invariant
                    0 <= i < n,
                    0 <= j <= n,
                    m == self.matrix(),
                    m.len() == n * n,
                    n * n <= usize::MAX,
                    f == (|a: int, b: int| widen(m[cell(a, b, n as int)])),
                    forall|a: int, b: int| 0 <= a < n && 0 <= b < n ==> within_bound(widen(#[trigger] m[cell(a, b, n as int)])),
                    diameter <= MAX_DISTANCE,
                    forall|a: int, b: int|
                        0 <= a < n && 0 <= b < n && (a < i || (a == i && b < j)) ==> match #[trigger] f(a, b) {
                            Some(v) => v <= diameter,
                            None => true,
                        },
                    diameter == 0 || exists|a: int, b: int| 0 <= a < n && 0 <= b < n && #[trigger] f(a, b) == Some(diameter as int),
                decreases n - j,
            {
                proof {
                    lemma_cell(i as int, j as int, n as int);
                }
                match self.floyd_warshall_matrix[i * n + j] {
                    Some(v) => {
                        if v > diameter {
                            diameter = v;
                            assert(f(i as int, j as int) == Some(diameter as int));
                        }
                    },
                    None => {},
                }
                j = j + 1;
            }
            i = i + 1;
        }
        diameter
    }
}

} // verus!
