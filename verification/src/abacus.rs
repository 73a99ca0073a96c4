//! The sample-reduction core: a sorted set of integer-tick timing
//! samples with exact aggregates, an order-statistics quantile search
//! that hill-climbs over distinct values, an idealized (smoothed)
//! quantile kept in half-ticks, and IQR-style outlier pruning.

use vstd::prelude::*;
use crate::TICK_LIMIT;

verus! {

// ---------------------------------------------------------------------------
// Specification-level model of a sample set.
//
// A sample is a number of integer ticks (nanosecond-scale). The set keeps its
// samples sorted ascending; the aggregates below are the mathematical values
// the executable code must match exactly.
// ---------------------------------------------------------------------------

/// Ascending order.
pub open spec fn sorted(s: Seq<u32>) -> bool {
    forall|i: int, j: int| 0 <= i < j < s.len() ==> s[i] <= s[j]
}

/// Sum of all ticks.
pub open spec fn sum_of(s: Seq<u32>) -> int
    decreases s.len(),
{
    if s.len() == 0 {
        0
    } else {
        sum_of(s.drop_last()) + s.last()
    }
}

/// Sum of the squares of all ticks.
pub open spec fn sum_sq_of(s: Seq<u32>) -> int
    decreases s.len(),
{
    if s.len() == 0 {
        0
    } else {
        sum_sq_of(s.drop_last()) + s.last() * s.last()
    }
}

/// The distinct values of a sorted sequence, in ascending order.
pub open spec fn uniq_of(s: Seq<u32>) -> Seq<u32>
    decreases s.len(),
{
    if s.len() == 0 {
        Seq::empty()
    } else {
        let u = uniq_of(s.drop_last());
        if u.len() > 0 && u.last() == s.last() {
            u
        } else {
            u.push(s.last())
        }
    }
}

/// How many entries lie strictly below `v`.
pub open spec fn count_lt(s: Seq<u32>, v: int) -> int
    decreases s.len(),
{
    if s.len() == 0 {
        0
    } else {
        count_lt(s.drop_last(), v) + if (s.last() as int) < v {
            1int
        } else {
            0int
        }
    }
}

/// How many entries lie strictly above `v`.
pub open spec fn count_gt(s: Seq<u32>, v: int) -> int
    decreases s.len(),
{
    if s.len() == 0 {
        0
    } else {
        count_gt(s.drop_last(), v) + if (s.last() as int) > v {
            1int
        } else {
            0int
        }
    }
}

/// Absolute difference.
pub open spec fn dist(a: int, b: int) -> int {
    if a >= b {
        a - b
    } else {
        b - a
    }
}

/// The raw samples admitted into a set: oversized ticks are dropped, the
/// rest narrowed to `u32`.
pub open spec fn keep_valid(s: Seq<u64>) -> Seq<u32>
    decreases s.len(),
{
    if s.len() == 0 {
        Seq::empty()
    } else {
        keep_valid(s.drop_last()) + if s.last() <= TICK_LIMIT {
            seq![s.last() as u32]
        } else {
            Seq::empty()
        }
    }
}

// ---------------------------------------------------------------------------
// Basic lemmas about the model
// ---------------------------------------------------------------------------

pub proof fn lemma_count_lt_bounds(s: Seq<u32>, v: int)
    ensures
        0 <= count_lt(s, v) <= s.len(),
    decreases s.len(),
{
    if s.len() > 0 {
        lemma_count_lt_bounds(s.drop_last(), v);
    }
}

pub proof fn lemma_count_gt_bounds(s: Seq<u32>, v: int)
    ensures
        0 <= count_gt(s, v) <= s.len(),
    decreases s.len(),
{
    if s.len() > 0 {
        lemma_count_gt_bounds(s.drop_last(), v);
    }
}

/// In a sorted sequence the entries strictly below `v` are exactly the first
/// `count_lt` positions.
pub proof fn lemma_sorted_count_lt(s: Seq<u32>, v: int)
    requires
        sorted(s),
    ensures
        forall|i: int| 0 <= i < s.len() ==> (((s[i] as int) < v) <==> i < count_lt(s, v)),
    decreases s.len(),
{
    lemma_count_lt_bounds(s, v);
    if s.len() > 0 {
        let d = s.drop_last();
        assert(sorted(d));
        lemma_sorted_count_lt(d, v);
        lemma_count_lt_bounds(d, v);
        if (s.last() as int) < v {
            // Everything precedes the last element, so everything is below v.
            assert forall|i: int| 0 <= i < d.len() implies (d[i] as int) < v by {
                assert(s[i] <= s[s.len() - 1]);
            }
            assert(count_lt(d, v) == d.len());
        }
        assert forall|i: int| 0 <= i < s.len() implies (((s[i] as int) < v) <==> i < count_lt(
            s,
            v,
        )) by {
            if i < s.len() - 1 {
                assert(s[i] == d[i]);
            }
        }
    }
}

/// In a sorted sequence the entries strictly above `v` are exactly the last
/// `count_gt` positions.
pub proof fn lemma_sorted_count_gt(s: Seq<u32>, v: int)
    requires
        sorted(s),
    ensures
        forall|i: int| 0 <= i < s.len() ==> (((s[i] as int) > v) <==> i >= s.len() - count_gt(
            s,
            v,
        )),
    decreases s.len(),
{
    lemma_count_gt_bounds(s, v);
    if s.len() > 0 {
        let d = s.drop_last();
        assert(sorted(d));
        lemma_sorted_count_gt(d, v);
        lemma_count_gt_bounds(d, v);
        if (s.last() as int) > v {
            assert forall|i: int| 0 <= i < s.len() - 1 && (d[i] as int) > v implies i >= s.len()
                - 1 - count_gt(d, v) by {}
        } else {
            // The last element is <= v, so nothing above v sits anywhere,
            // unless it sits in the prefix.
            assert forall|i: int| 0 <= i < d.len() implies ((d[i] as int) > v <==> i >= s.len() - 1
                - count_gt(d, v)) by {}
        }
        assert forall|i: int| 0 <= i < s.len() implies (((s[i] as int) > v) <==> i >= s.len()
            - count_gt(s, v)) by {
            if i < s.len() - 1 {
                assert(s[i] == d[i]);
            }
        }
    }
}

/// The distinct-value sequence of a sorted sequence is strictly ascending,
/// holds the same values, and is empty only for an empty input.
pub proof fn lemma_uniq(s: Seq<u32>)
    requires
        sorted(s),
    ensures
        uniq_of(s).len() <= s.len(),
        s.len() > 0 ==> uniq_of(s).len() > 0,
        forall|i: int, j: int|
            0 <= i < j < uniq_of(s).len() ==> uniq_of(s)[i] < uniq_of(s)[j],
        forall|x: u32| #[trigger] s.contains(x) ==> uniq_of(s).contains(x),
        forall|x: u32| #[trigger] uniq_of(s).contains(x) ==> s.contains(x),
        s.len() > 0 ==> uniq_of(s).last() == s.last(),
    decreases s.len(),
{
    if s.len() > 0 {
        let d = s.drop_last();
        assert(sorted(d));
        lemma_uniq(d);
        let u = uniq_of(d);
        let w = uniq_of(s);
        if u.len() > 0 && u.last() == s.last() {
            assert(w == u);
            assert forall|x: u32| #[trigger] s.contains(x) implies w.contains(x) by {
                let i = choose|i: int| 0 <= i < s.len() && s[i] == x;
                if i < s.len() - 1 {
                    assert(d[i] == x);
                    assert(d.contains(x));
                } else {
                    assert(d.contains(x)) by {
                        assert(u[u.len() - 1] == x);
                        assert(uniq_of(d).contains(x));
                    }
                }
            }
            assert forall|x: u32| #[trigger] w.contains(x) implies s.contains(x) by {
                assert(uniq_of(d).contains(x));
                assert(d.contains(x));
                let i = choose|i: int| 0 <= i < d.len() && d[i] == x;
                assert(s[i] == x);
            }
        } else {
            assert(w == u.push(s.last()));
            // Every prior distinct value is a value of d, hence <= d's last,
            // which is <= s's last; and it differs from s.last().
            assert forall|i: int| 0 <= i < u.len() implies u[i] < s.last() by {
                assert(u.contains(u[i]));
                assert(d.contains(u[i]));
                let k = choose|k: int| 0 <= k < d.len() && d[k] == u[i];
                assert(s[k] <= s[s.len() - 1]);
                if u[i] == s.last() {
                    // then d's last equals s.last(): u.last() >= u[i] yet
                    // u.last() == d.last() would force the collapsed branch
                    assert(d.len() > 0);
                    assert(d.last() <= s.last());
                    assert(d.contains(d.last())) by {
                        assert(d[d.len() - 1] == d.last());
                    }
                    assert(u.contains(d.last()));
                    let m = choose|m: int| 0 <= m < u.len() && u[m] == d.last();
                    assert(u[m] <= u.last() || m == u.len() - 1);
                    assert(u.last() >= d.last()) by {
                        if m < u.len() - 1 {
                            assert(u[m] < u[u.len() - 1]);
                        }
                    }
                    assert(u.last() <= s.last()) by {
                        assert(u.contains(u.last())) by {
                            assert(u[u.len() - 1] == u.last());
                        }
                        assert(d.contains(u.last()));
                        let q = choose|q: int| 0 <= q < d.len() && d[q] == u.last();
                        assert(s[q] <= s[s.len() - 1]);
                    }
                    assert(d.last() == s.last() || u.last() == s.last());
                    assert(false);
                }
            }
            assert forall|x: u32| #[trigger] s.contains(x) implies w.contains(x) by {
                let i = choose|i: int| 0 <= i < s.len() && s[i] == x;
                if i < s.len() - 1 {
                    assert(d[i] == x);
                    assert(d.contains(x));
                    assert(uniq_of(d).contains(x));
                    let m = choose|m: int| 0 <= m < u.len() && u[m] == x;
                    assert(w[m] == x);
                } else {
                    assert(w[w.len() - 1] == x);
                }
            }
            assert forall|x: u32| #[trigger] w.contains(x) implies s.contains(x) by {
                let m = choose|m: int| 0 <= m < w.len() && w[m] == x;
                if m < w.len() - 1 {
                    assert(u[m] == x);
                    assert(uniq_of(d).contains(x));
                    assert(d.contains(x));
                    let i = choose|i: int| 0 <= i < d.len() && d[i] == x;
                    assert(s[i] == x);
                } else {
                    assert(s[s.len() - 1] == x);
                }
            }
        }
    }
}

/// In a strictly ascending sequence, `count_lt` of the value at `j` is `j`
/// itself, and `count_gt` mirrors it from the other end.
pub proof fn lemma_strict_index(u: Seq<u32>, j: int)
    requires
        forall|i: int, k: int| 0 <= i < k < u.len() ==> u[i] < u[k],
        0 <= j < u.len(),
    ensures
        count_lt(u, u[j] as int) == j,
        count_gt(u, u[j] as int) == u.len() - j - 1,
{
    assert(sorted(u));
    lemma_sorted_count_lt(u, u[j] as int);
    lemma_count_lt_bounds(u, u[j] as int);
    lemma_sorted_count_gt(u, u[j] as int);
    lemma_count_gt_bounds(u, u[j] as int);
    let c = count_lt(u, u[j] as int);
    if c < j {
        assert((u[c] as int) < u[j] as int);
        assert(false);
    }
    if c > j {
        assert((u[j] as int) < u[j] as int);
        assert(false);
    }
    let g = count_gt(u, u[j] as int);
    if u.len() - g > j + 1 {
        assert((u[j + 1] as int) > u[j] as int);
        assert(!((u[j + 1] as int) > u[j] as int));
        assert(false);
    }
    if u.len() - g < j + 1 {
        assert((u[j] as int) > u[j] as int);
        assert(false);
    }
}

/// The entry just below the first occurrence of `v` in a sorted sequence is
/// the previous *distinct* value, i.e. the same step that walking the
/// collapsed sequence takes.
pub proof fn lemma_step_down(s: Seq<u32>, v: u32)
    requires
        sorted(s),
        s.contains(v),
    ensures
        count_lt(s, v as int) > 0 ==> {
            let u = uniq_of(s);
            &&& count_lt(u, v as int) > 0
            &&& s[count_lt(s, v as int) - 1] == u[count_lt(u, v as int) - 1]
        },
        count_lt(s, v as int) == 0 ==> count_lt(uniq_of(s), v as int) == 0,
{
    let u = uniq_of(s);
    lemma_uniq(s);
    lemma_sorted_count_lt(s, v as int);
    lemma_count_lt_bounds(s, v as int);
    assert(sorted(u));
    lemma_sorted_count_lt(u, v as int);
    lemma_count_lt_bounds(u, v as int);
    let k = count_lt(s, v as int);
    let ku = count_lt(u, v as int);
    if k > 0 {
        let p = s[k - 1];
        assert((p as int) < v as int);
        assert(s.contains(p)) by {
            assert(s[k - 1] == p);
        }
        assert(u.contains(p));
        let m = choose|m: int| 0 <= m < u.len() && u[m] == p;
        assert((u[m] as int) < v as int);
        assert(m < ku);
        assert(ku > 0);
        let q = u[ku - 1];
        assert((q as int) < v as int);
        assert(u.contains(q)) by {
            assert(u[ku - 1] == q);
        }
        assert(s.contains(q));
        let i = choose|i: int| 0 <= i < s.len() && s[i] == q;
        assert((s[i] as int) < v as int);
        assert(i < k);
        assert(s[i] <= s[k - 1]) by {
            if i < k - 1 {
                assert(s[i] <= s[k - 1]);
            }
        }
        assert(u[m] <= u[ku - 1]) by {
            if m < ku - 1 {
                assert(u[m] < u[ku - 1]);
            }
        }
        assert(q <= p && p <= q);
    } else {
        if ku > 0 {
            let q = u[ku - 1];
            assert((q as int) < v as int);
            assert(u.contains(q)) by {
                assert(u[ku - 1] == q);
            }
            assert(s.contains(q));
            let i = choose|i: int| 0 <= i < s.len() && s[i] == q;
            assert(i < k);
            assert(false);
        }
    }
}

/// The entry just above the last occurrence of `v` in a sorted sequence is
/// the next distinct value.
pub proof fn lemma_step_up(s: Seq<u32>, v: u32)
    requires
        sorted(s),
        s.contains(v),
    ensures
        count_gt(s, v as int) > 0 ==> {
            let u = uniq_of(s);
            &&& count_gt(u, v as int) > 0
            &&& s[s.len() - count_gt(s, v as int)] == u[u.len() - count_gt(u, v as int)]
        },
        count_gt(s, v as int) == 0 ==> count_gt(uniq_of(s), v as int) == 0,
{
    let u = uniq_of(s);
    lemma_uniq(s);
    lemma_sorted_count_gt(s, v as int);
    lemma_count_gt_bounds(s, v as int);
    assert(sorted(u));
    lemma_sorted_count_gt(u, v as int);
    lemma_count_gt_bounds(u, v as int);
    let g = count_gt(s, v as int);
    let gu = count_gt(u, v as int);
    if g > 0 {
        let p = s[s.len() - g];
        assert((p as int) > v as int);
        assert(s.contains(p)) by {
            assert(s[s.len() - g] == p);
        }
        assert(u.contains(p));
        let m = choose|m: int| 0 <= m < u.len() && u[m] == p;
        assert((u[m] as int) > v as int);
        assert(m >= u.len() - gu);
        assert(gu > 0);
        let q = u[u.len() - gu];
        assert((q as int) > v as int);
        assert(u.contains(q)) by {
            assert(u[u.len() - gu] == q);
        }
        assert(s.contains(q));
        let i = choose|i: int| 0 <= i < s.len() && s[i] == q;
        assert(i >= s.len() - g);
        assert(s[s.len() - g] <= s[i]) by {
            if s.len() - g < i {
                assert(s[s.len() - g] <= s[i]);
            }
        }
        assert(u[u.len() - gu] <= u[m]) by {
            if u.len() - gu < m {
                assert(u[u.len() - gu] < u[m]);
            }
        }
        assert(q <= p && p <= q);
    } else {
        if gu > 0 {
            let q = u[u.len() - gu];
            assert((q as int) > v as int);
            assert(u.contains(q)) by {
                assert(u[u.len() - gu] == q);
            }
            assert(s.contains(q));
            let i = choose|i: int| 0 <= i < s.len() && s[i] == q;
            assert(i >= s.len() - g);
            assert(false);
        }
    }
}

// ---------------------------------------------------------------------------
// Quantile search, specified
// ---------------------------------------------------------------------------

/// How far the below/above counts of `v` sit from an ideal split of
/// `tb` entries below and `ta` above. Zero is a perfect fit.
pub open spec fn score_of(s: Seq<u32>, v: int, tb: int, ta: int) -> int {
    dist(count_lt(s, v), tb) + dist(count_gt(s, v), ta)
}

/// Hill-climb towards smaller distinct values, keeping the best-scoring
/// value seen; stops at the first step that fails to improve.
pub open spec fn walk_down(
    s: Seq<u32>,
    u: Seq<u32>,
    j: int,
    best_v: u32,
    best_d: int,
    tb: int,
    ta: int,
) -> (u32, int)
    decreases j,
{
    if j <= 0 || j > u.len() {
        (best_v, best_d)
    } else {
        let other = u[j - 1];
        let d2 = score_of(s, other as int, tb, ta);
        if d2 < best_d {
            walk_down(s, u, j - 1, other, d2, tb, ta)
        } else {
            (best_v, best_d)
        }
    }
}

/// Hill-climb towards larger distinct values, as `walk_down`.
pub open spec fn walk_up(
    s: Seq<u32>,
    u: Seq<u32>,
    j: int,
    best_v: u32,
    best_d: int,
    tb: int,
    ta: int,
) -> (u32, int)
    decreases u.len() - j,
{
    if j < 0 || j >= u.len() - 1 {
        (best_v, best_d)
    } else {
        let other = u[j + 1];
        let d2 = score_of(s, other as int, tb, ta);
        if d2 < best_d {
            walk_up(s, u, j + 1, other, d2, tb, ta)
        } else {
            (best_v, best_d)
        }
    }
}

/// The quantile for the ratio `num / den` over a sorted sample sequence:
/// always a member of a non-empty sequence. The interior case rounds
/// `num / den * len` to the nearest rank and then walks rank-adjacent
/// distinct values while their below/above counts fit the target better.
pub open spec fn quantile_spec(s: Seq<u32>, num: int, den: int) -> int {
    let n = s.len() as int;
    if n == 0 {
        0
    } else if num <= 0 {
        s[0] as int
    } else if num >= den {
        s[n - 1] as int
    } else if n == 1 || uniq_of(s).len() == 1 {
        s[0] as int
    } else {
        let target = (2 * num * n + den) / (2 * den);
        if target == 0 {
            s[0] as int
        } else if target >= n - 1 {
            s[n - 1] as int
        } else {
            let tb = target;
            let ta = n - target - 1;
            let u = uniq_of(s);
            let v0 = s[target];
            let j0 = count_lt(u, v0 as int);
            let d0 = score_of(s, v0 as int, tb, ta);
            let down = walk_down(s, u, j0, v0, d0, tb, ta);
            let up = walk_up(s, u, j0, down.0, down.1, tb, ta);
            up.0 as int
        }
    }
}

/// Results of the two walks are members of the distinct-value sequence or
/// the starting value itself.
pub proof fn lemma_walk_down_in(
    s: Seq<u32>,
    u: Seq<u32>,
    j: int,
    best_v: u32,
    best_d: int,
    tb: int,
    ta: int,
)
    ensures
        walk_down(s, u, j, best_v, best_d, tb, ta).0 == best_v || u.contains(
            walk_down(s, u, j, best_v, best_d, tb, ta).0,
        ),
    decreases j,
{
    if j <= 0 || j > u.len() {
    } else {
        let other = u[j - 1];
        let d2 = score_of(s, other as int, tb, ta);
        if d2 < best_d {
            lemma_walk_down_in(s, u, j - 1, other, d2, tb, ta);
            assert(u.contains(other)) by {
                assert(u[j - 1] == other);
            }
        }
    }
}

pub proof fn lemma_walk_up_in(
    s: Seq<u32>,
    u: Seq<u32>,
    j: int,
    best_v: u32,
    best_d: int,
    tb: int,
    ta: int,
)
    ensures
        walk_up(s, u, j, best_v, best_d, tb, ta).0 == best_v || u.contains(
            walk_up(s, u, j, best_v, best_d, tb, ta).0,
        ),
    decreases u.len() - j,
{
    if j < 0 || j >= u.len() - 1 {
    } else {
        let other = u[j + 1];
        let d2 = score_of(s, other as int, tb, ta);
        if d2 < best_d {
            lemma_walk_up_in(s, u, j + 1, other, d2, tb, ta);
            assert(u.contains(other)) by {
                assert(u[j + 1] == other);
            }
        }
    }
}

/// A quantile of a non-empty sorted sequence is always one of its members,
/// and the boundary ratios select the minimum and maximum.
pub proof fn lemma_quantile_member(s: Seq<u32>, num: int, den: int)
    requires
        sorted(s),
        s.len() > 0,
        den > 0,
    ensures
        s.contains(quantile_spec(s, num, den) as u32),
        num <= 0 ==> quantile_spec(s, num, den) == s[0] as int,
        num >= den ==> quantile_spec(s, num, den) == s[s.len() - 1] as int,
        0 <= quantile_spec(s, num, den) <= 0xFFFF_FFFF,
{
    let n = s.len() as int;
    lemma_uniq(s);
    if num <= 0 {
        assert(s.contains(s[0]));
    } else if num >= den {
        assert(s.contains(s[n - 1]));
    } else if n == 1 || uniq_of(s).len() == 1 {
        assert(s.contains(s[0]));
    } else {
        let target = (2 * num * n + den) / (2 * den);
        if target == 0 {
            assert(s.contains(s[0]));
        } else if target >= n - 1 {
            assert(s.contains(s[n - 1]));
        } else {
            let tb = target;
            let ta = n - target - 1;
            let u = uniq_of(s);
            let v0 = s[target];
            let j0 = count_lt(u, v0 as int);
            let d0 = score_of(s, v0 as int, tb, ta);
            let down = walk_down(s, u, j0, v0, d0, tb, ta);
            let up = walk_up(s, u, j0, down.0, down.1, tb, ta);
            lemma_walk_down_in(s, u, j0, v0, d0, tb, ta);
            lemma_walk_up_in(s, u, j0, down.0, down.1, tb, ta);
            assert(s.contains(v0));
            if up.0 == down.0 {
                if down.0 == v0 {
                } else {
                    assert(u.contains(down.0));
                }
            } else {
                assert(u.contains(up.0));
            }
            assert(s.contains(up.0));
        }
    }
    let r = quantile_spec(s, num, den) as u32;
    assert(0 <= r <= 0xFFFF_FFFFu32);
}

// ---------------------------------------------------------------------------
// Idealized quantile and outlier fence, specified
// ---------------------------------------------------------------------------

/// The idealized quantile for `num / den`, *doubled* so that the midpoints
/// it may produce stay exact integers. Interior ratios look one
/// `epsilon = 1 / (2 * len)` to either side; if the raw quantile sits
/// lopsidedly against its neighbours, the estimate is pulled halfway
/// towards the sparse side. A locally balanced neighbourhood yields the
/// 0 sentinel, a deliberate degenerate branch of this estimator.
pub open spec fn ideal_quantile_spec(s: Seq<u32>, num: int, den: int) -> int {
    let n = s.len() as int;
    if n == 0 {
        0
    } else if num <= 0 {
        2 * (s[0] as int)
    } else if num >= den {
        2 * (s[n - 1] as int)
    } else if n == 1 || uniq_of(s).len() == 1 {
        2 * (s[0] as int)
    } else {
        let q = quantile_spec(s, num, den);
        if q == 0 || 4 * n * num <= 3 * den || 4 * n * num >= (4 * n - 3) * den {
            2 * q
        } else {
            let lo = quantile_spec(s, 2 * n * num - den, 2 * n * den);
            let hi = quantile_spec(s, 2 * n * num + den, 2 * n * den);
            let lo_diff = q - lo;
            let hi_diff = hi - q;
            if lo_diff >= 2 * hi_diff {
                lo + q
            } else if hi_diff >= 2 * lo_diff {
                hi + q
            } else {
                0
            }
        }
    }
}

/// Whether a sample `x` sits inside the outlier fence built from the
/// doubled 5th and 95th idealized quantiles `i1` and `i3`: the classic
/// `q1 - 1.5 * iqr <= x <= q3 + 1.5 * iqr` band, cleared of fractions.
pub open spec fn fence_keep(x: u32, i1: int, i3: int) -> bool {
    5 * i1 - 3 * i3 <= 4 * (x as int) && 4 * (x as int) <= 5 * i3 - 3 * i1
}

/// The subsequence inside the fence, in order.
pub open spec fn keep_fenced(s: Seq<u32>, i1: int, i3: int) -> Seq<u32>
    decreases s.len(),
{
    if s.len() == 0 {
        Seq::empty()
    } else {
        keep_fenced(s.drop_last(), i1, i3) + if fence_keep(s.last(), i1, i3) {
            seq![s.last()]
        } else {
            Seq::empty()
        }
    }
}

/// What outlier pruning leaves of a sorted sample sequence: a set with at
/// most one distinct value is left alone, otherwise the fence filter runs.
pub open spec fn pruned_of(s: Seq<u32>) -> Seq<u32> {
    if uniq_of(s).len() <= 1 {
        s
    } else {
        keep_fenced(s, ideal_quantile_spec(s, 1, 20), ideal_quantile_spec(s, 19, 20))
    }
}

/// Fencing preserves order and keeps only members of the input.
pub proof fn lemma_keep_fenced(s: Seq<u32>, i1: int, i3: int)
    requires
        sorted(s),
    ensures
        sorted(keep_fenced(s, i1, i3)),
        keep_fenced(s, i1, i3).len() <= s.len(),
        forall|x: u32| #[trigger] keep_fenced(s, i1, i3).contains(x) ==> s.contains(x),
    decreases s.len(),
{
    if s.len() > 0 {
        let d = s.drop_last();
        assert(sorted(d));
        lemma_keep_fenced(d, i1, i3);
        let kd = keep_fenced(d, i1, i3);
        let ks = keep_fenced(s, i1, i3);
        assert forall|x: u32| #[trigger] ks.contains(x) implies s.contains(x) by {
            let i = choose|i: int| 0 <= i < ks.len() && ks[i] == x;
            if i < kd.len() {
                assert(kd[i] == x);
                assert(kd.contains(x));
                assert(d.contains(x));
                let k = choose|k: int| 0 <= k < d.len() && d[k] == x;
                assert(s[k] == x);
            } else {
                assert(s[s.len() - 1] == x);
            }
        }
        assert forall|i: int, j: int| 0 <= i < j < ks.len() implies ks[i] <= ks[j] by {
            if j < kd.len() {
            } else {
                assert(ks[j] == s.last());
                assert(kd[i] == ks[i]);
                assert(kd.contains(kd[i]));
                assert(d.contains(kd[i]));
                let k = choose|k: int| 0 <= k < d.len() && d[k] == kd[i];
                assert(s[k] <= s[s.len() - 1]);
            }
        }
    }
}

/// Sum of a sequence is bounded by its length times the largest tick.
pub proof fn lemma_sum_le(s: Seq<u32>)
    ensures
        0 <= sum_of(s) <= s.len() * 0xFFFF_FFFF,
    decreases s.len(),
{
    if s.len() > 0 {
        lemma_sum_le(s.drop_last());
        assert(sum_of(s) <= s.len() * 0xFFFF_FFFF) by (nonlinear_arith)
            requires
                sum_of(s) == sum_of(s.drop_last()) + s.last(),
                sum_of(s.drop_last()) <= (s.len() - 1) * 0xFFFF_FFFF,
                s.last() <= 0xFFFF_FFFF,
                s.len() >= 1,
        {}
    }
}

// ---------------------------------------------------------------------------
// The executable sample set
// ---------------------------------------------------------------------------

/// A sorted set of timing samples with cached aggregates. This is where
/// the run statistics come from.
pub struct Abacus {
    /// Samples, ascending.
    pub set: Vec<u32>,
    /// Cached number of samples.
    pub len: usize,
    /// Cached number of distinct values.
    pub unique: usize,
    /// Cached sum of all samples.
    pub total: u64,
}

impl View for Abacus {
    type V = Seq<u32>;

    open spec fn view(&self) -> Seq<u32> {
        self.set@
    }
}

impl Abacus {
    /// The structural invariant: sorted samples and honest caches.
    pub open spec fn wf(self) -> bool {
        &&& sorted(self.set@)
        &&& self.set@.len() <= 0xFFFF_FFFF
        &&& self.len == self.set@.len()
        &&& self.unique == uniq_of(self.set@).len()
        &&& self.total == sum_of(self.set@)
    }

    /// Whether the set holds no samples.
    pub fn is_empty(&self) -> (r: bool)
        requires
            self.wf(),
        ensures
            r == (self@.len() == 0),
    {
        self.len == 0
    }

    /// Number of samples.
    pub fn len(&self) -> (r: usize)
        requires
            self.wf(),
        ensures
            r == self@.len(),
    {
        self.len
    }

    /// Builds a sample set from raw ticks: oversized observations are
    /// dropped as abnormal, the rest sorted ascending, and the count,
    /// distinct count and sum cached.
    pub fn from_ticks(src: &Vec<u64>) -> (r: Abacus)
        requires
            src@.len() <= 0xFFFF_FFFF,
        ensures
            r.wf(),
            r@ == sort_of(keep_valid(src@)),
            r@.to_multiset() == keep_valid(src@).to_multiset(),
            r@.len() <= src@.len(),
    {
        let n = src.len();
        let mut kept: Vec<u32> = Vec::new();
        let mut i: usize = 0;
        while i < n
            invariant
                n == src@.len() <= 0xFFFF_FFFF,
                i <= n,
                kept@ == keep_valid(src@.take(i as int)),
                kept@.len() <= i,
            decreases n - i,
        {
            proof {
                assert(src@.take(i + 1).drop_last() =~= src@.take(i as int));
                assert(src@.take(i + 1).last() == src@[i as int]);
            }
            if src[i] <= TICK_LIMIT {
                kept.push(src[i] as u32);
            }
            proof {
                assert(kept@ =~= keep_valid(src@.take(i + 1)));
            }
            i = i + 1;
        }
        proof {
            assert(src@.take(n as int) =~= src@);
        }
        let sorted_set = sort_ticks(kept);
        proof {
            let t = sort_of(keep_valid(src@));
            assert(sorted(t) && t.to_multiset() == keep_valid(src@).to_multiset()) by {
                assert(exists|t2: Seq<u32>|
                    sorted(t2) && t2.to_multiset() == keep_valid(src@).to_multiset()) by {
                    assert(sorted(sorted_set@) && sorted_set@.to_multiset() == keep_valid(
                        src@,
                    ).to_multiset());
                }
            }
            lemma_sorted_multiset_unique(sorted_set@, t);
            broadcast use vstd::seq_lib::group_to_multiset_ensures;

            assert(sorted_set@.len() == sorted_set@.to_multiset().len());
            assert(keep_valid(src@).len() == keep_valid(src@).to_multiset().len());
            lemma_keep_valid_len(src@);
        }
        let n2 = sorted_set.len();
        let unique = count_runs(&sorted_set);
        let total = sum_all(&sorted_set);
        Abacus { set: sorted_set, len: n2, unique, total }
    }
}

/// Filtering keeps at most as many samples as were offered.
pub proof fn lemma_keep_valid_len(s: Seq<u64>)
    ensures
        keep_valid(s).len() <= s.len(),
    decreases s.len(),
{
    if s.len() > 0 {
        lemma_keep_valid_len(s.drop_last());
    }
}

/// Counts the distinct values of a sorted vector by collapsing runs of
/// equal neighbours.
fn count_runs(v: &Vec<u32>) -> (r: usize)
    requires
        sorted(v@),
        v@.len() <= 0xFFFF_FFFF,
    ensures
        r == uniq_of(v@).len(),
{
    let n = v.len();
    let mut unique: usize = 0;
    let mut j: usize = 0;
    while j < n
        invariant
            n == v@.len() <= 0xFFFF_FFFF,
            sorted(v@),
            j <= n,
            unique == uniq_of(v@.take(j as int)).len(),
            unique <= j,
        decreases n - j,
    {
        proof {
            assert(v@.take(j + 1).drop_last() =~= v@.take(j as int));
            assert(v@.take(j + 1).last() == v@[j as int]);
            assert(sorted(v@.take(j as int)));
            if j > 0 {
                lemma_uniq(v@.take(j as int));
                assert(v@.take(j as int).last() == v@[j - 1]);
            }
        }
        if j == 0 || v[j - 1] != v[j] {
            unique = unique + 1;
        }
        j = j + 1;
    }
    proof {
        assert(v@.take(n as int) =~= v@);
    }
    unique
}

/// Sums a vector of ticks.
fn sum_all(v: &Vec<u32>) -> (r: u64)
    requires
        v@.len() <= 0xFFFF_FFFF,
    ensures
        r == sum_of(v@),
{
    let n = v.len();
    let mut total: u64 = 0;
    let mut k: usize = 0;
    while k < n
        invariant
            n == v@.len() <= 0xFFFF_FFFF,
            k <= n,
            total == sum_of(v@.take(k as int)),
        decreases n - k,
    {
        proof {
            assert(v@.take(k + 1).drop_last() =~= v@.take(k as int));
            assert(v@.take(k + 1).last() == v@[k as int]);
            lemma_sum_le(v@.take(k as int));
            assert(v@.take(k as int).len() * 0xFFFF_FFFF <= 0xFFFF_FFFE * 0xFFFF_FFFFu64)
                by (nonlinear_arith)
                requires
                    v@.take(k as int).len() <= 0xFFFF_FFFE,
            {}
        }
        total = total + v[k] as u64;
        k = k + 1;
    }
    proof {
        assert(v@.take(n as int) =~= v@);
    }
    total
}

/// Sorts ticks ascending by repeated ordered insertion.
fn sort_ticks(src: Vec<u32>) -> (r: Vec<u32>)
    requires
        src@.len() <= 0xFFFF_FFFF,
    ensures
        sorted(r@),
        r@.to_multiset() == src@.to_multiset(),
        r@.len() == src@.len(),
{
    let n = src.len();
    let mut out: Vec<u32> = Vec::new();
    let mut i: usize = 0;
    proof {
        assert(out@ =~= src@.take(0int));
    }
    while i < n
        invariant
            n == src@.len() <= 0xFFFF_FFFF,
            i <= n,
            sorted(out@),
            out@.to_multiset() == src@.take(i as int).to_multiset(),
            out@.len() == i,
        decreases n - i,
    {
        let x = src[i];
        let mut p = out.len();
        while p > 0 && out[p - 1] > x
            invariant
                p <= out@.len(),
                forall|k: int| p <= k < out@.len() ==> out@[k] > x,
            decreases p,
        {
            p = p - 1;
        }
        let ghost old_out = out@;
        out.insert(p, x);
        proof {
            let t = out@;
            assert forall|a: int, b: int| 0 <= a < b < t.len() implies t[a] <= t[b] by {
                if b < p {
                } else if a >= p + 1 {
                    assert(t[a] == old_out[a - 1] && t[b] == old_out[b - 1]);
                } else if b == p {
                    assert(t[b] == x);
                    assert(t[a] == old_out[a]);
                    assert(old_out[p - 1] <= x);
                    assert(old_out[a] <= old_out[p - 1] || a == p - 1);
                } else {
                    // a <= p < b
                    assert(t[b] == old_out[b - 1]);
                    assert(old_out[b - 1] > x);
                    if a == p {
                        assert(t[a] == x);
                    } else {
                        assert(t[a] == old_out[a]);
                        assert(old_out[a] <= old_out[p - 1] || a == p - 1);
                        assert(old_out[p - 1] <= x);
                    }
                }
            }
            lemma_insert_multiset(old_out, p as int, x);
            assert(src@.take(i + 1).drop_last() =~= src@.take(i as int));
            assert(src@.take(i + 1).last() == src@[i as int]);
            assert(src@.take(i + 1) =~= src@.take(i as int).push(src@[i as int]));
            assert(src@.take(i + 1).to_multiset() =~= src@.take(i as int).to_multiset().insert(
                src@[i as int],
            )) by {
                broadcast use vstd::seq_lib::group_to_multiset_ensures;

            }
        }
        i = i + 1;
    }
    proof {
        assert(src@.take(n as int) =~= src@);
        broadcast use vstd::seq_lib::group_to_multiset_ensures;

        assert(out@.len() == out@.to_multiset().len());
        assert(src@.len() == src@.to_multiset().len());
    }
    out
}

/// Inserting into a sequence inserts into its multiset.
pub proof fn lemma_insert_multiset(s: Seq<u32>, i: int, x: u32)
    requires
        0 <= i <= s.len(),
    ensures
        s.insert(i, x).to_multiset() =~= s.to_multiset().insert(x),
{
    broadcast use vstd::seq_lib::group_to_multiset_ensures;

    let t = s.insert(i, x);
    assert(t.remove(i) =~= s);
    assert(t[i] == x);
    assert(t.remove(i).to_multiset() =~= t.to_multiset().remove(x));
    assert(t.contains(x)) by {
        assert(t[i] == x);
    }
    assert(t.to_multiset().count(x) > 0);
    assert forall|y: u32| true implies t.to_multiset().count(y) == s.to_multiset().insert(x).count(
        y,
    ) by {
        if y == x {
            assert(s.to_multiset().count(x) == t.to_multiset().remove(x).count(x));
        } else {
            assert(s.to_multiset().count(y) == t.to_multiset().remove(x).count(y));
        }
    }
}

// ---------------------------------------------------------------------------
// Aggregate statistics
// ---------------------------------------------------------------------------

/// Smallest sample, or 0 for an empty set.
pub open spec fn min_spec(s: Seq<u32>) -> int {
    if s.len() == 0 {
        0
    } else {
        s[0] as int
    }
}

/// Largest sample, or 0 for an empty set.
pub open spec fn max_spec(s: Seq<u32>) -> int {
    if s.len() == 0 {
        0
    } else {
        s[s.len() - 1] as int
    }
}

/// Arithmetic mean, rounded down. A single distinct value is returned as
/// itself, sidestepping the division entirely.
pub open spec fn mean_spec(s: Seq<u32>) -> int {
    if s.len() == 0 {
        0
    } else if uniq_of(s).len() == 1 {
        s[0] as int
    } else {
        sum_of(s) / (s.len() as int)
    }
}

/// `len^2` times the population variance, an exact integer.
pub open spec fn var_num_of(s: Seq<u32>) -> int {
    (s.len() as int) * sum_sq_of(s) - sum_of(s) * sum_of(s)
}

/// Integer square root, rounded down.
pub open spec fn isqrt_spec(x: int) -> int
    decreases x,
{
    if x < 1 {
        0
    } else {
        let r = isqrt_spec(x - 1);
        if (r + 1) * (r + 1) <= x {
            r + 1
        } else {
            r
        }
    }
}

/// Population standard deviation, rounded down: the square root of
/// `var_num / len^2`. Zero for an empty or single-valued set.
pub open spec fn deviation_spec(s: Seq<u32>) -> int {
    if s.len() == 0 || uniq_of(s).len() == 1 {
        0
    } else {
        isqrt_spec(var_num_of(s)) / (s.len() as int)
    }
}

pub proof fn lemma_isqrt(x: int)
    requires
        x >= 0,
    ensures
        isqrt_spec(x) >= 0,
        isqrt_spec(x) * isqrt_spec(x) <= x,
        x < (isqrt_spec(x) + 1) * (isqrt_spec(x) + 1),
    decreases x,
{
    if x >= 1 {
        lemma_isqrt(x - 1);
        let r = isqrt_spec(x - 1);
        if (r + 1) * (r + 1) <= x {
            assert(x < (r + 2) * (r + 2)) by (nonlinear_arith)
                requires
                    r >= 0,
                    x - 1 < (r + 1) * (r + 1),
            {}
        }
    }
}

pub proof fn lemma_isqrt_unique(x: int, r: int)
    requires
        x >= 0,
        r >= 0,
        r * r <= x,
        x < (r + 1) * (r + 1),
    ensures
        r == isqrt_spec(x),
{
    lemma_isqrt(x);
    let q = isqrt_spec(x);
    if r < q {
        assert((r + 1) * (r + 1) <= q * q) by (nonlinear_arith)
            requires
                0 <= r,
                r + 1 <= q,
        {}
        assert(false);
    }
    if r > q {
        assert((q + 1) * (q + 1) <= r * r) by (nonlinear_arith)
            requires
                0 <= q,
                q + 1 <= r,
        {}
        assert(false);
    }
}

/// Sum of squares is bounded by the length times the largest square.
pub proof fn lemma_sumsq_le(s: Seq<u32>)
    ensures
        0 <= sum_sq_of(s) <= s.len() * 0xFFFF_FFFF * 0xFFFF_FFFF,
    decreases s.len(),
{
    if s.len() > 0 {
        lemma_sumsq_le(s.drop_last());
        assert(sum_sq_of(s) <= s.len() * 0xFFFF_FFFF * 0xFFFF_FFFF) by (nonlinear_arith)
            requires
                sum_sq_of(s) == sum_sq_of(s.drop_last()) + s.last() * s.last(),
                sum_sq_of(s.drop_last()) <= (s.len() - 1) * 0xFFFF_FFFF * 0xFFFF_FFFF,
                0 <= s.last() <= 0xFFFF_FFFF,
                s.len() >= 1,
        {}
    }
}

/// `sum((x - y)^2) >= 0`, unrolled over the aggregates.
proof fn lemma_cross(s: Seq<u32>, y: int)
    ensures
        sum_sq_of(s) + s.len() * y * y - 2 * sum_of(s) * y >= 0,
    decreases s.len(),
{
    if s.len() == 0 {
    } else {
        let d = s.drop_last();
        lemma_cross(d, y);
        assert(sum_sq_of(s) + s.len() * y * y - 2 * sum_of(s) * y >= 0) by (nonlinear_arith)
            requires
                sum_sq_of(s) == sum_sq_of(d) + s.last() * s.last(),
                sum_of(s) == sum_of(d) + s.last(),
                s.len() == d.len() + 1,
                sum_sq_of(d) + d.len() * y * y - 2 * sum_of(d) * y >= 0,
        {
            let t = (s.last() - y) * (s.last() - y);
            assert(t >= 0);
        }
    }
}

/// The variance numerator is never negative (Cauchy-Schwarz).
pub proof fn lemma_var_num_nonneg(s: Seq<u32>)
    ensures
        var_num_of(s) >= 0,
    decreases s.len(),
{
    if s.len() == 0 {
    } else {
        let d = s.drop_last();
        lemma_var_num_nonneg(d);
        lemma_cross(d, s.last() as int);
        assert((s.len() as int) * sum_sq_of(s) - sum_of(s) * sum_of(s) >= 0) by (nonlinear_arith)
            requires
                sum_sq_of(s) == sum_sq_of(d) + s.last() * s.last(),
                sum_of(s) == sum_of(d) + s.last(),
                s.len() == d.len() + 1,
                (d.len() as int) * sum_sq_of(d) - sum_of(d) * sum_of(d) >= 0,
                sum_sq_of(d) + d.len() * (s.last() as int) * (s.last() as int) - 2 * sum_of(d) * (
                s.last() as int) >= 0,
        {}
    }
}

/// Integer square root of a 128-bit value by bisection.
fn isqrt128(x: u128) -> (r: u128)
    ensures
        r == isqrt_spec(x as int),
        r < 0x1_0000_0000_0000_0000,
{
    let mut lo: u128 = 0;
    let mut hi: u128 = 0x1_0000_0000_0000_0000;
    proof {
        assert((hi as int) * (hi as int) > x as int) by (nonlinear_arith)
            requires
                hi == 0x1_0000_0000_0000_0000u128,
                x <= u128::MAX,
        {}
    }
    while hi - lo > 1
        invariant
            lo < hi <= 0x1_0000_0000_0000_0000,
            (lo as int) * (lo as int) <= x as int,
            (hi as int) * (hi as int) > x as int,
        decreases hi - lo,
    {
        let mid = lo + (hi - lo) / 2;
        proof {
            assert((mid as int) * (mid as int) < 0x1_0000_0000_0000_0000_0000_0000_0000_0000int)
                by (nonlinear_arith)
                requires
                    mid < 0x1_0000_0000_0000_0000u128,
            {}
        }
        if mid * mid <= x {
            lo = mid;
        } else {
            hi = mid;
        }
    }
    proof {
        lemma_isqrt_unique(x as int, lo as int);
    }
    lo
}

impl Abacus {
    /// Smallest sample, or 0 if the set is empty.
    pub fn min(&self) -> (r: u32)
        requires
            self.wf(),
        ensures
            r == min_spec(self@),
    {
        if self.len == 0 {
            0
        } else {
            self.set[0]
        }
    }

    /// Largest sample, or 0 if the set is empty.
    pub fn max(&self) -> (r: u32)
        requires
            self.wf(),
        ensures
            r == max_spec(self@),
    {
        if self.len == 0 {
            0
        } else {
            self.set[self.len - 1]
        }
    }

    /// Arithmetic mean of the samples, rounded down to whole ticks.
    pub fn mean(&self) -> (r: u64)
        requires
            self.wf(),
        ensures
            r == mean_spec(self@),
    {
        if self.len == 0 {
            0
        } else if self.unique == 1 {
            self.set[0] as u64
        } else {
            self.total / (self.len as u64)
        }
    }

    /// Population standard deviation of the samples, rounded down to
    /// whole ticks; zero when every sample is identical.
    pub fn deviation(&self) -> (r: u64)
        requires
            self.wf(),
        ensures
            r == deviation_spec(self@),
    {
        if self.len == 0 || self.unique == 1 {
            return 0;
        }
        let n = self.set.len();
        let mut acc: u128 = 0;
        let mut i: usize = 0;
        while i < n
            invariant
                n == self.set@.len() <= 0xFFFF_FFFF,
                i <= n,
                acc == sum_sq_of(self.set@.take(i as int)),
                acc <= (i as int) * 0xFFFF_FFFF * 0xFFFF_FFFF,
            decreases n - i,
        {
            proof {
                assert(self.set@.take(i + 1).drop_last() =~= self.set@.take(i as int));
                assert(self.set@.take(i + 1).last() == self.set@[i as int]);
                assert((i + 1) * 0xFFFF_FFFF * 0xFFFF_FFFF <= 0xFFFF_FFFFu128 * 0xFFFF_FFFF
                    * 0xFFFF_FFFF) by (nonlinear_arith)
                    requires
                        i + 1 <= 0xFFFF_FFFFu128,
                {}
                assert((self.set@[i as int] as u128) * (self.set@[i as int] as u128)
                    <= 0xFFFF_FFFFu128 * 0xFFFF_FFFF) by (nonlinear_arith)
                    requires
                        self.set@[i as int] <= 0xFFFF_FFFFu32,
                {}
            }
            let v = self.set[i] as u128;
            acc = acc + v * v;
            i = i + 1;
        }
        proof {
            assert(self.set@.take(n as int) =~= self.set@);
            lemma_var_num_nonneg(self.set@);
            assert((n as u128) * acc <= 0xFFFF_FFFFu128 * (0xFFFF_FFFFu128 * 0xFFFF_FFFF
                * 0xFFFF_FFFF)) by (nonlinear_arith)
                requires
                    n <= 0xFFFF_FFFFu128,
                    acc <= 0xFFFF_FFFFu128 * 0xFFFF_FFFF * 0xFFFF_FFFF,
            {}
            lemma_sum_le(self.set@);
        }
        let var = (n as u128) * acc - (self.total as u128) * (self.total as u128);
        proof {
            assert(var == var_num_of(self.set@));
        }
        let root = isqrt128(var);
        let r = root / (n as u128);
        r as u64
    }

    /// Number of samples strictly below `v`.
    fn count_below(&self, v: u32) -> (r: usize)
        requires
            self.wf(),
        ensures
            r == count_lt(self@, v as int),
    {
        let mut i: usize = 0;
        while i < self.len && self.set[i] < v
            invariant
                self.wf(),
                i <= self.set@.len(),
                forall|k: int| 0 <= k < i ==> self.set@[k] < v,
            decreases self.set@.len() - i,
        {
            i = i + 1;
        }
        proof {
            lemma_sorted_count_lt(self.set@, v as int);
            lemma_count_lt_bounds(self.set@, v as int);
            let c = count_lt(self.set@, v as int);
            if (i as int) < c {
                assert((self.set@[i as int] as int) < v as int);
                assert(false);
            }
            if (i as int) > c {
                assert(self.set@[c] < v);
                assert(false);
            }
        }
        i
    }

    /// Number of samples strictly above `v`.
    fn count_above(&self, v: u32) -> (r: usize)
        requires
            self.wf(),
        ensures
            r == count_gt(self@, v as int),
    {
        let mut j: usize = self.len;
        while j > 0 && self.set[j - 1] > v
            invariant
                self.wf(),
                j <= self.set@.len(),
                forall|k: int| j <= k < self.set@.len() ==> self.set@[k] > v,
            decreases j,
        {
            j = j - 1;
        }
        proof {
            lemma_sorted_count_gt(self.set@, v as int);
            lemma_count_gt_bounds(self.set@, v as int);
            let g = count_gt(self.set@, v as int);
            let n = self.set@.len() as int;
            if n - (j as int) < g {
                assert((self.set@[n - g] as int) > v as int);
                assert(false);
            }
            if n - (j as int) > g {
                assert(self.set@[j as int] > v);
                assert(false);
            }
        }
        self.len - j
    }

    /// How far `v` sits from an ideal split of `tb` below and `ta` above.
    fn score(&self, v: u32, tb: usize, ta: usize) -> (r: u64)
        requires
            self.wf(),
            tb <= self@.len(),
            ta <= self@.len(),
        ensures
            r == score_of(self@, v as int, tb as int, ta as int),
    {
        let b = self.count_below(v);
        let a = self.count_above(v);
        proof {
            lemma_count_lt_bounds(self@, v as int);
            lemma_count_gt_bounds(self@, v as int);
        }
        let db: u64 = if b >= tb {
            (b - tb) as u64
        } else {
            (tb - b) as u64
        };
        let da: u64 = if a >= ta {
            (a - ta) as u64
        } else {
            (ta - a) as u64
        };
        db + da
    }
}

impl Abacus {
    /// Quantile search over the exact ratio `num / den`: picks the sample
    /// at the rounded target rank, then hill-climbs across neighbouring
    /// distinct values while their below/above counts fit the rank better.
    fn quantile_impl(&self, num: u128, den: u128) -> (r: u32)
        requires
            self.wf(),
            1 <= den <= 0x4_0000_0000_0000_0000u128,
        ensures
            r == quantile_spec(self@, num as int, den as int),
    {
        if self.len == 0 {
            return 0;
        }
        if num == 0 {
            return self.set[0];
        }
        if num >= den {
            return self.set[self.len - 1];
        }
        if self.len == 1 || self.unique == 1 {
            return self.set[0];
        }
        let n = self.len;
        let nn = n as u128;
        proof {
            assert((2 * (num as int)) * (nn as int) <= 0x8_0000_0000_0000_0000int
                * 0x1_0000_0000int) by (nonlinear_arith)
                requires
                    num <= 0x4_0000_0000_0000_0000u128,
                    nn <= 0x1_0000_0000u128,
            {}
        }
        let t128 = (2 * num * nn + den) / (2 * den);
        proof {
            let a = 2 * (num as int) * (nn as int) + den as int;
            let b = 2 * (den as int);
            assert(a < b * ((nn as int) + 1)) by (nonlinear_arith)
                requires
                    num <= den - 1,
                    den >= 1,
                    nn >= 0,
                    a == 2 * (num as int) * (nn as int) + den as int,
                    b == 2 * (den as int),
            {}
            vstd::arithmetic::div_mod::lemma_multiply_divide_lt(a, b, (nn as int) + 1);
            assert(t128 == a / b);
            assert(t128 <= nn);
        }
        let target = t128 as usize;
        if target == 0 {
            return self.set[0];
        }
        if target >= n - 1 {
            return self.set[self.len - 1];
        }
        let tb = target;
        let ta = n - target - 1;
        let ghost s = self@;
        let ghost u = uniq_of(s);
        proof {
            lemma_uniq(s);
        }
        let v0 = self.set[target];
        let d0 = self.score(v0, tb, ta);
        let ghost j0 = count_lt(u, v0 as int);
        let mut best = v0;
        let mut bestd = d0;
        let mut cur = v0;
        let mut done = false;
        proof {
            assert(s.contains(v0)) by {
                assert(s[target as int] == v0);
            }
        }
        while !done
            invariant
                self.wf(),
                s == self@,
                u == uniq_of(s),
                n == s.len(),
                2 <= n <= 0xFFFF_FFFF,
                tb < n,
                ta < n,
                s.contains(cur),
                walk_down(s, u, count_lt(u, cur as int), best, bestd as int, tb as int, ta as int)
                    == walk_down(s, u, j0, v0, d0 as int, tb as int, ta as int),
                done ==> (best, bestd as int) == walk_down(
                    s,
                    u,
                    j0,
                    v0,
                    d0 as int,
                    tb as int,
                    ta as int,
                ),
            decreases count_lt(u, cur as int), (if done { 0int } else { 1int }),
        {
            proof {
                lemma_uniq(s);
                lemma_step_down(s, cur);
                lemma_count_lt_bounds(u, cur as int);
                lemma_count_lt_bounds(s, cur as int);
            }
            let cb = self.count_below(cur);
            if cb == 0 {
                proof {
                    assert(count_lt(u, cur as int) == 0);
                }
                done = true;
            } else {
                let other = self.set[cb - 1];
                let ghost ju = count_lt(u, cur as int);
                proof {
                    assert(ju > 0);
                    assert(other == u[ju - 1]);
                }
                let d2 = self.score(other, tb, ta);
                if d2 < bestd {
                    proof {
                        assert(forall|i: int, k: int| 0 <= i < k < u.len() ==> u[i] < u[k]);
                        lemma_strict_index(u, ju - 1);
                        assert(count_lt(u, other as int) == ju - 1);
                        assert(s.contains(other)) by {
                            assert(s[cb - 1] == other);
                        }
                    }
                    best = other;
                    bestd = d2;
                    cur = other;
                } else {
                    done = true;
                }
            }
        }
        let ghost down = walk_down(s, u, j0, v0, d0 as int, tb as int, ta as int);
        proof {
            assert((best, bestd as int) == down);
        }
        // Climb upward from the starting rank, carrying the downward best.
        cur = v0;
        let mut done2 = false;
        proof {
            assert(s.contains(v0)) by {
                assert(s[target as int] == v0);
            }
        }
        while !done2
            invariant
                self.wf(),
                s == self@,
                u == uniq_of(s),
                n == s.len(),
                2 <= n <= 0xFFFF_FFFF,
                tb < n,
                ta < n,
                s.contains(cur),
                walk_up(s, u, count_lt(u, cur as int), best, bestd as int, tb as int, ta as int)
                    == walk_up(s, u, j0, down.0, down.1, tb as int, ta as int),
                done2 ==> (best, bestd as int) == walk_up(
                    s,
                    u,
                    j0,
                    down.0,
                    down.1,
                    tb as int,
                    ta as int,
                ),
            decreases u.len() - count_lt(u, cur as int), (if done2 { 0int } else { 1int }),
        {
            proof {
                lemma_uniq(s);
                lemma_step_up(s, cur);
                lemma_count_lt_bounds(u, cur as int);
                lemma_count_gt_bounds(u, cur as int);
                lemma_count_gt_bounds(s, cur as int);
                // cur sits in u; its index is count_lt(u, cur).
                assert(u.contains(cur));
                let m = choose|m: int| 0 <= m < u.len() && u[m] == cur;
                assert(forall|i: int, k: int| 0 <= i < k < u.len() ==> u[i] < u[k]);
                lemma_strict_index(u, m);
                assert(count_lt(u, cur as int) == m);
                assert(count_gt(u, cur as int) == u.len() - m - 1);
            }
            let ca = self.count_above(cur);
            if ca == 0 {
                done2 = true;
                proof {
                    assert(count_gt(u, cur as int) == 0);
                    assert(count_lt(u, cur as int) >= u.len() - 1);
                }
            } else {
                let other = self.set[self.len - ca];
                let ghost ju = count_lt(u, cur as int);
                proof {
                    assert(count_gt(u, cur as int) > 0);
                    assert(ju < u.len() - 1);
                    assert(other == u[u.len() - count_gt(u, cur as int)]);
                    assert(u[u.len() - count_gt(u, cur as int)] == u[ju + 1]);
                }
                let d2 = self.score(other, tb, ta);
                if d2 < bestd {
                    proof {
                        lemma_strict_index(u, ju + 1);
                        assert(count_lt(u, other as int) == ju + 1);
                        assert(s.contains(other)) by {
                            assert(s[s.len() - count_gt(s, cur as int)] == other);
                        }
                    }
                    best = other;
                    bestd = d2;
                    cur = other;
                } else {
                    done2 = true;
                }
            }
        }
        proof {
            assert((best, bestd as int) == walk_up(s, u, j0, down.0, down.1, tb as int, ta as int));
        }
        best
    }

    /// Quantile at `num / den`, clamped to the set's minimum and maximum;
    /// for a non-empty set the result is always one of its samples.
    pub fn quantile(&self, num: u32, den: u32) -> (r: u32)
        requires
            self.wf(),
            den >= 1,
        ensures
            r == quantile_spec(self@, num as int, den as int),
            self@.len() > 0 ==> self@.contains(r),
            self@.len() > 0 && num == 0 ==> r == min_spec(self@),
            self@.len() > 0 && num >= den ==> r == max_spec(self@),
    {
        proof {
            if self@.len() > 0 {
                lemma_quantile_member(self@, num as int, den as int);
            }
        }
        self.quantile_impl(num as u128, den as u128)
    }

    /// Idealized quantile at `num / den`, in half-ticks (doubled, so the
    /// midpoints it interpolates stay exact). Near the boundaries it
    /// equals twice the plain quantile; in a locally balanced
    /// neighbourhood it collapses to the 0 sentinel.
    pub fn ideal_quantile(&self, num: u32, den: u32) -> (r: u64)
        requires
            self.wf(),
            den >= 1,
        ensures
            r == ideal_quantile_spec(self@, num as int, den as int),
            r <= 0x1_FFFF_FFFEu64,
    {
        if self.len == 0 {
            return 0;
        }
        if num == 0 {
            return 2 * (self.set[0] as u64);
        }
        if num >= den {
            return 2 * (self.set[self.len - 1] as u64);
        }
        if self.len == 1 || self.unique == 1 {
            return 2 * (self.set[0] as u64);
        }
        let nn = self.len as u128;
        let q = self.quantile_impl(num as u128, den as u128);
        proof {
            assert((4 * (nn as int)) * (num as int) <= 0x4_0000_0000_0000_0000int
                * 0x1_0000_0000int) by (nonlinear_arith)
                requires
                    nn <= 0x1_0000_0000u128,
                    num <= 0xFFFF_FFFFu32,
            {}
            assert((4 * (nn as int) - 3) * (den as int) <= 0x4_0000_0000_0000_0000int
                * 0x1_0000_0000int) by (nonlinear_arith)
                requires
                    2 <= nn <= 0x1_0000_0000u128,
                    den <= 0xFFFF_FFFFu32,
            {}
            assert((2 * (nn as int)) * (num as int) <= 0x2_0000_0000_0000_0000int
                * 0x1_0000_0000int) by (nonlinear_arith)
                requires
                    nn <= 0x1_0000_0000u128,
                    num <= 0xFFFF_FFFFu32,
            {}
            assert(1 <= (2 * (nn as int)) * (den as int) <= 0x4_0000_0000_0000_0000int)
                by (nonlinear_arith)
                requires
                    2 <= nn <= 0x1_0000_0000u128,
                    1 <= den <= 0xFFFF_FFFFu32,
            {}
        }
        if q == 0 || 4 * nn * (num as u128) <= 3 * (den as u128) || 4 * nn * (num as u128) >= (4
            * nn - 3) * (den as u128) {
            return 2 * (q as u64);
        }
        proof {
            assert(2 * (nn as int) * (num as int) >= (den as int) + 1) by (nonlinear_arith)
                requires
                    4 * (nn as int) * (num as int) > 3 * (den as int),
                    den >= 1,
                    nn >= 2,
                    num >= 1,
            {}
            assert(2 * (nn as int) * (den as int) <= 0x4_0000_0000_0000_0000int)
                by (nonlinear_arith)
                requires
                    nn <= 0x1_0000_0000u128,
                    den <= 0xFFFF_FFFFu32,
            {}
        }
        let lo = self.quantile_impl(2 * nn * (num as u128) - (den as u128), 2 * nn * (den as u128));
        let hi = self.quantile_impl(2 * nn * (num as u128) + (den as u128), 2 * nn * (den as u128));
        let lo_diff = (q as i64) - (lo as i64);
        let hi_diff = (hi as i64) - (q as i64);
        if lo_diff >= 2 * hi_diff {
            (lo as u64) + (q as u64)
        } else if hi_diff >= 2 * lo_diff {
            (hi as u64) + (q as u64)
        } else {
            0
        }
    }

    /// Removes outliers in place: an IQR-style fence is built from the
    /// idealized 5th and 95th quantiles with a 1.5 multiplier, samples
    /// outside it are dropped, and the cached aggregates recomputed.
    /// A set with at most one distinct value is left untouched.
    pub fn prune_outliers(&mut self)
        requires
            old(self).wf(),
        ensures
            final(self).wf(),
            final(self)@ == pruned_of(old(self)@),
            final(self)@.len() <= old(self)@.len(),
    {
        if self.unique <= 1 {
            return;
        }
        let i1 = self.ideal_quantile(1, 20);
        let i3 = self.ideal_quantile(19, 20);
        let n = self.set.len();
        let mut kept: Vec<u32> = Vec::new();
        let mut i: usize = 0;
        while i < n
            invariant
                self.wf(),
                n == self.set@.len(),
                i <= n,
                i1 == ideal_quantile_spec(self@, 1, 20),
                i3 == ideal_quantile_spec(self@, 19, 20),
                i1 <= 0x2_0000_0000u64,
                i3 <= 0x2_0000_0000u64,
                kept@ == keep_fenced(self.set@.take(i as int), i1 as int, i3 as int),
                kept@.len() <= i,
            decreases n - i,
        {
            proof {
                assert(self.set@.take(i + 1).drop_last() =~= self.set@.take(i as int));
                assert(self.set@.take(i + 1).last() == self.set@[i as int]);
            }
            let x = self.set[i];
            let keep_it = 5 * (i1 as i128) - 3 * (i3 as i128) <= 4 * (x as i128) && 4 * (x as i128)
                <= 5 * (i3 as i128) - 3 * (i1 as i128);
            if keep_it {
                kept.push(x);
            }
            proof {
                assert(kept@ =~= keep_fenced(self.set@.take(i + 1), i1 as int, i3 as int));
            }
            i = i + 1;
        }
        proof {
            assert(self.set@.take(n as int) =~= self.set@);
            lemma_keep_fenced(self.set@, i1 as int, i3 as int);
        }
        let n2 = kept.len();
        let unique = count_runs(&kept);
        let total = sum_all(&kept);
        self.set = kept;
        self.len = n2;
        self.unique = unique;
        self.total = total;
    }
}

// ---------------------------------------------------------------------------
// The sorted arrangement of a multiset is unique
// ---------------------------------------------------------------------------

/// The ascending arrangement of the values of `s`: well defined because
/// two sorted sequences over the same multiset are equal.
pub open spec fn sort_of(s: Seq<u32>) -> Seq<u32> {
    choose|t: Seq<u32>| sorted(t) && t.to_multiset() == s.to_multiset()
}

/// Two sorted sequences holding the same values are the same sequence.
pub proof fn lemma_sorted_multiset_unique(x: Seq<u32>, y: Seq<u32>)
    requires
        sorted(x),
        sorted(y),
        x.to_multiset() == y.to_multiset(),
    ensures
        x == y,
    decreases x.len(),
{
    broadcast use vstd::seq_lib::group_to_multiset_ensures;

    assert(x.len() == x.to_multiset().len());
    assert(y.len() == y.to_multiset().len());
    assert(x.len() == y.len());
    if x.len() == 0 {
        assert(x =~= y);
    } else {
        let a = x.last();
        let b = y.last();
        assert(x.contains(a)) by {
            assert(x[x.len() - 1] == a);
        }
        assert(y.contains(b)) by {
            assert(y[y.len() - 1] == b);
        }
        assert(x.to_multiset().count(a) > 0);
        assert(y.to_multiset().count(a) > 0);
        assert(y.contains(a));
        assert(y.to_multiset().count(b) > 0);
        assert(x.to_multiset().count(b) > 0);
        assert(x.contains(b));
        let i = choose|i: int| 0 <= i < y.len() && y[i] == a;
        let k = choose|k: int| 0 <= k < x.len() && x[k] == b;
        assert(a <= y.last()) by {
            if i < y.len() - 1 {
                assert(y[i] <= y[y.len() - 1]);
            }
        }
        assert(b <= x.last()) by {
            if k < x.len() - 1 {
                assert(x[k] <= x[x.len() - 1]);
            }
        }
        assert(a == b);
        let xd = x.drop_last();
        let yd = y.drop_last();
        assert(xd =~= x.remove(x.len() - 1));
        assert(yd =~= y.remove(y.len() - 1));
        assert(xd.to_multiset() =~= x.to_multiset().remove(a));
        assert(yd.to_multiset() =~= y.to_multiset().remove(a));
        assert(sorted(xd) && sorted(yd));
        lemma_sorted_multiset_unique(xd, yd);
        assert(x =~= y) by {
            assert(forall|m: int| 0 <= m < x.len() - 1 ==> x[m] == xd[m] && y[m] == yd[m]);
        }
    }
}

/// A sorted sequence is its own sorted arrangement.
pub proof fn lemma_sort_of_sorted(s: Seq<u32>)
    requires
        sorted(s),
    ensures
        sort_of(s) == s,
{
    assert(sorted(s) && s.to_multiset() == s.to_multiset());
    let t = sort_of(s);
    assert(sorted(t) && t.to_multiset() == s.to_multiset()) by {
        assert(exists|t2: Seq<u32>| sorted(t2) && t2.to_multiset() == s.to_multiset());
    }
    lemma_sorted_multiset_unique(t, s);
}

// ---------------------------------------------------------------------------
// Laws
// ---------------------------------------------------------------------------

/// A sequence holding one value over and over has exactly one distinct
/// value.
pub proof fn lemma_uniform_uniq(s: Seq<u32>, v: u32)
    requires
        s.len() > 0,
        forall|i: int| 0 <= i < s.len() ==> s[i] == v,
    ensures
        uniq_of(s) =~= seq![v],
    decreases s.len(),
{
    if s.len() == 1 {
        assert(uniq_of(s) == uniq_of(s.drop_last()).push(s.last()));
        assert(uniq_of(s.drop_last()) =~= Seq::<u32>::empty());
    } else {
        lemma_uniform_uniq(s.drop_last(), v);
    }
}

/// Law: a non-empty set of identical samples `v` has mean `v` and
/// standard deviation zero.
pub proof fn lemma_uniform_mean_deviation(s: Seq<u32>, v: u32)
    requires
        s.len() > 0,
        forall|i: int| 0 <= i < s.len() ==> s[i] == v,
    ensures
        mean_spec(s) == v as int,
        deviation_spec(s) == 0,
{
    lemma_uniform_uniq(s, v);
}

/// Law: a set that pruning leaves whole is a fixpoint: pruning it again
/// removes nothing either. (A set that *did* lose samples can lose more
/// on a second pass, since the surviving samples' quantiles move
/// inward; the pruner is run once per benchmark.)
pub proof fn lemma_prune_fixpoint(s: Seq<u32>)
    requires
        pruned_of(s) == s,
    ensures
        pruned_of(pruned_of(s)) == pruned_of(s),
{
}

/// Law: within `1.5 * epsilon` of either boundary the idealized quantile
/// is exactly the plain quantile (doubled here, matching its half-tick
/// scale), with no smoothing applied.
pub proof fn lemma_ideal_near_boundary(s: Seq<u32>, num: int, den: int)
    requires
        den >= 1,
        4 * s.len() * num <= 3 * den || 4 * s.len() * num >= (4 * s.len() - 3) * den,
    ensures
        ideal_quantile_spec(s, num, den) == 2 * quantile_spec(s, num, den),
{
}

} // verus!
