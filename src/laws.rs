//! General facts about reconstruction, stated over the specifications of
//! `interpolate_at_zero` and of the sweep.
use crate::bigint::int_of;
use crate::error::ShareError;
use crate::lagrange::{
    basis_den, basis_num, distinct_xs, has_value_at_zero, interpolation_result, is_value_at_zero,
    lemma_take_distinct, sum_frac, value_at_zero,
};
use crate::recover::{flagged, strictly_sorted, trial};
use crate::symmetry::lemma_order_independent;
use crate::tamper::{lemma_shift_moves_value, shifted};
use num_bigint::BigInt;
use vstd::prelude::*;

verus! {

broadcast use vstd::seq_lib::group_to_multiset_ensures;

/// The canonical order is determined by the point set: two orderings of the
/// same points, both ascending in x, are the same sequence.
pub proof fn lemma_canonical_order_unique(t1: Seq<(int, int)>, t2: Seq<(int, int)>)
    requires
        t1.to_multiset() == t2.to_multiset(),
        strictly_sorted(t1),
        strictly_sorted(t2),
    ensures
        t1 == t2,
    decreases t1.len(),
{
    assert(t1.len() == t1.to_multiset().len());
    assert(t2.len() == t2.to_multiset().len());
    if t1.len() > 0 {
        assert(t2.to_multiset().contains(t1[0]));
        assert(t1.to_multiset().contains(t2[0]));
        assert(t2.contains(t1[0]));
        assert(t1.contains(t2[0]));
        let j = choose|j: int| 0 <= j < t2.len() && t2[j] == t1[0];
        let i = choose|i: int| 0 <= i < t1.len() && t1[i] == t2[0];
        if j != 0 {
            assert(t2[0].0 < t2[j].0);
            if i != 0 {
                assert(t1[0].0 < t1[i].0);
            }
        }
        assert(t1[0] == t2[0]);
        let r1 = t1.remove(0);
        let r2 = t2.remove(0);
        assert(r1.to_multiset() == r2.to_multiset());
        assert forall|a: int, b: int| 0 <= a < b < r1.len() implies #[trigger] r1[a].0
            < #[trigger] r1[b].0 by {
            assert(r1[a] == t1[a + 1] && r1[b] == t1[b + 1]);
        }
        assert forall|a: int, b: int| 0 <= a < b < r2.len() implies #[trigger] r2[a].0
            < #[trigger] r2[b].0 by {
            assert(r2[a] == t2[a + 1] && r2[b] == t2[b + 1]);
        }
        lemma_canonical_order_unique(r1, r2);
        assert(t1 =~= seq![t1[0]] + r1);
        assert(t2 =~= seq![t2[0]] + r2);
    }
}

/// Interpolation is deterministic: any two results that `interpolate_at_zero`
/// may return for the same points and threshold agree.
pub proof fn lemma_interpolation_deterministic(
    s: Seq<(int, int)>,
    k: int,
    r1: Result<BigInt, ShareError>,
    r2: Result<BigInt, ShareError>,
)
    requires
        distinct_xs(s),
        interpolation_result(s, k, r1),
        interpolation_result(s, k, r2),
    ensures
        r1 is Ok <==> r2 is Ok,
        r1 is Ok ==> int_of(r1->Ok_0) == int_of(r2->Ok_0),
        r1 is Err ==> r1->Err_0 == r2->Err_0,
{
}

/// Order independence of `interpolate_at_zero`: given the same set of points
/// in two orders, all of them taken, it returns the same integer, or fails in
/// both.
pub proof fn lemma_interpolation_order_independent(
    s: Seq<(int, int)>,
    t: Seq<(int, int)>,
    r1: Result<BigInt, ShareError>,
    r2: Result<BigInt, ShareError>,
)
    requires
        s.to_multiset() == t.to_multiset(),
        interpolation_result(s, s.len() as int, r1),
        interpolation_result(t, t.len() as int, r2),
    ensures
        r1 is Ok <==> r2 is Ok,
        r1 is Ok ==> int_of(r1->Ok_0) == int_of(r2->Ok_0),
{
    assert(s.len() == s.to_multiset().len());
    assert(t.len() == t.to_multiset().len());
    assert(s.take(s.len() as int) =~= s);
    assert(t.take(t.len() as int) =~= t);
    lemma_order_independent(s, t);
}

/// Changing a point outside the reference subset (at position `k` or later)
/// leaves the reference reconstruction as it was.
pub proof fn lemma_secret_ignores_non_reference_points(
    s: Seq<(int, int)>,
    k: int,
    j: int,
    p: (int, int),
)
    requires
        0 <= k <= j < s.len(),
    ensures
        has_value_at_zero(s.update(j, p).take(k)) == has_value_at_zero(s.take(k)),
        value_at_zero(s.update(j, p).take(k)) == value_at_zero(s.take(k)),
{
    assert(s.update(j, p).take(k) =~= s.take(k));
}

/// Changing the value of a point of the reference subset (position `t`
/// below `k`) by `delta` moves the reference secret by `delta` times that
/// point's Lagrange weight in the subset; where the weight is not zero and
/// `delta` is not 0, the secret changes.
pub proof fn lemma_secret_follows_reference_change(
    s: Seq<(int, int)>,
    k: int,
    t: int,
    delta: int,
    v: int,
    v2: int,
)
    requires
        distinct_xs(s),
        0 <= t < k <= s.len(),
        is_value_at_zero(s.take(k), v),
        is_value_at_zero(shifted(s, t, delta).take(k), v2),
    ensures
        (v2 - v) * basis_den(s.take(k), t, k) == delta * basis_num(s.take(k), t, k),
        delta != 0 && basis_num(s.take(k), t, k) != 0 ==> v2 != v,
{
    assert(shifted(s, t, delta).take(k) =~= shifted(s.take(k), t, delta));
    lemma_take_distinct(s, k);
    lemma_shift_moves_value(s.take(k), t, delta, v, v2);
}

/// The sweep only ever reports points of the reference subset: leaving out a
/// point at position `k` or later leaves the first `k` points as they were,
/// so such a point is never reported, however its value was changed.
pub proof fn lemma_flagged_within_reference(s: Seq<(int, int)>, k: int, m: int)
    requires
        0 <= k <= m <= s.len(),
    ensures
        flagged(s, k, value_at_zero(s.take(k)), m) == flagged(s, k, value_at_zero(s.take(k)), k),
    decreases m,
{
    if m > k {
        lemma_flagged_within_reference(s, k, m - 1);
        assert(trial(s, m - 1, k) =~= s.take(k));
    }
}

/// Round trip for a line: two points with distinct x on `y = c + b*x` have
/// value `c` at zero.
pub proof fn lemma_line_round_trip(c: int, b: int, x1: int, x2: int)
    requires
        x1 != x2,
    ensures
        is_value_at_zero(seq![(x1, c + b * x1), (x2, c + b * x2)], c),
{
    let s = seq![(x1, c + b * x1), (x2, c + b * x2)];
    let (y1, y2) = (c + b * x1, c + b * x2);
    assert(s[0] == (x1, y1) && s[1] == (x2, y2));
    assert(basis_num(s, 0, 0) == 1 && basis_den(s, 0, 0) == 1);
    assert(basis_num(s, 1, 0) == 1 && basis_den(s, 1, 0) == 1);
    assert(basis_num(s, 0, 1) == 1 && basis_den(s, 0, 1) == 1);
    assert(basis_num(s, 1, 1) == -x1 && basis_den(s, 1, 1) == x2 - x1);
    let (n0, d0) = (y1 * (-x2), x1 - x2);
    let (n1, d1) = (y2 * (-x1), x2 - x1);
    assert(basis_num(s, 0, 2) == -x2 && basis_den(s, 0, 2) == d0);
    assert(basis_num(s, 1, 2) == -x1 && basis_den(s, 1, 2) == d1);
    assert(s.len() == 2);
    assert(sum_frac(s, 0) == (0int, 1int));
    assert(sum_frac(s, 1) == (0 * d0 + n0 * 1, 1 * d0));
    assert(sum_frac(s, 2) == ((0 * d0 + n0 * 1) * d1 + n1 * (1 * d0), (1 * d0) * d1));
    let (p, q) = (y1 * x2, y2 * x1);
    assert(p - q == c * (x2 - x1)) by (nonlinear_arith)
        requires
            y1 == c + b * x1,
            y2 == c + b * x2,
            p == y1 * x2,
            q == y2 * x1,
    ;
    assert(n0 == -p && n1 == -q) by (nonlinear_arith)
        requires
            n0 == y1 * (-x2),
            n1 == y2 * (-x1),
            p == y1 * x2,
            q == y2 * x1,
    ;
    assert(n0 * d1 + n1 * d0 == d0 * (p - q)) by (nonlinear_arith)
        requires
            n0 == -p,
            n1 == -q,
            d1 == -d0,
    ;
    assert(d0 * (p - q) == c * (d0 * d1)) by (nonlinear_arith)
        requires
            p - q == c * (x2 - x1),
            d0 == x1 - x2,
            d1 == x2 - x1,
    ;
}

} // verus!
