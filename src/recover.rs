//! The reconstruction protocol: canonical order, reference secret and the
//! leave-one-out consistency sweep.
use crate::bigint::{big_clone, big_eq, big_lt, int_of};
use crate::error::ShareError;
use crate::lagrange::{
    distinct_xs, has_value_at_zero, interpolate_at_zero, value_at_zero, views, Point,
};
use num_bigint::BigInt;
use vstd::prelude::*;

verus! {

broadcast use vstd::seq_lib::group_to_multiset_ensures;

/// The points in ascending order of x, no two with the same x.
pub open spec fn strictly_sorted(s: Seq<(int, int)>) -> bool {
    forall|i: int, j: int| 0 <= i < j < s.len() ==> #[trigger] s[i].0 < #[trigger] s[j].0
}

/// Removing a point keeps the x-coordinates distinct.
pub proof fn lemma_remove_distinct(s: Seq<(int, int)>, i: int)
    requires
        distinct_xs(s),
        0 <= i < s.len(),
    ensures
        distinct_xs(s.remove(i)),
{
    let t = s.remove(i);
    assert forall|a: int, b: int|
        0 <= a < t.len() && 0 <= b < t.len() && a != b implies #[trigger] t[a].0
        != #[trigger] t[b].0 by {
        let a2 = if a < i { a } else { a + 1 };
        let b2 = if b < i { b } else { b + 1 };
        assert(t[a] == s[a2] && t[b] == s[b2]);
    }
}

/// The points ordered by ascending x.
pub fn sort_points(points: Vec<Point>) -> (r: Vec<Point>)
    requires
        distinct_xs(views(points@)),
    ensures
        views(r@).to_multiset() == views(points@).to_multiset(),
        strictly_sorted(views(r@)),
{
    let ghost all = views(points@).to_multiset();
    let mut rest = points;
    let mut out: Vec<Point> = Vec::new();
    while rest.len() > 0
        invariant
            distinct_xs(views(rest@)),
            strictly_sorted(views(out@)),
            forall|a: int, b: int|
                0 <= a < out@.len() && 0 <= b < rest@.len() ==> #[trigger] views(out@)[a].0
                    < #[trigger] views(rest@)[b].0,
            views(out@).to_multiset().add(views(rest@).to_multiset()) == all,
        decreases rest.len(),
    {
        let ghost rv = views(rest@);
        let ghost ov = views(out@);
        let mut m: usize = 0;
        let mut j: usize = 1;
        while j < rest.len()
            invariant
                rv == views(rest@),
                m < rest@.len(),
                1 <= j <= rest@.len(),
                forall|b: int| 0 <= b < j ==> rv[m as int].0 <= #[trigger] rv[b].0,
            decreases rest.len() - j,
        {
            assert(rv[j as int] == rest@[j as int]@ && rv[m as int] == rest@[m as int]@);
            if big_lt(&rest[j].x, &rest[m].x) {
                m = j;
            }
            j += 1;
        }
        let p = rest.remove(m);
        proof {
            assert(rv[m as int] == p@);
            assert(views(rest@) =~= rv.remove(m as int));
            lemma_remove_distinct(rv, m as int);
        }
        out.push(p);
        proof {
            assert(views(out@) =~= ov.push(p@));
            assert forall|b: int| 0 <= b < rest@.len() implies p@.0 < #[trigger] views(rest@)[b].0 by {
                let b2 = if b < m { b } else { b + 1 };
                assert(views(rest@)[b] == rv[b2]);
                assert(rv[m as int].0 != rv[b2].0);
            }
            assert forall|a: int, b: int|
                0 <= a < out@.len() && 0 <= b < rest@.len() implies #[trigger] views(out@)[a].0
                    < #[trigger] views(rest@)[b].0 by {
                let b2 = if b < m { b } else { b + 1 };
                assert(views(rest@)[b] == rv[b2]);
                if a < ov.len() {
                    assert(views(out@)[a] == ov[a]);
                }
            }
            assert forall|a: int, b: int| 0 <= a < b < out@.len() implies #[trigger] views(out@)[a].0
                < #[trigger] views(out@)[b].0 by {
                if b < ov.len() {
                    assert(views(out@)[a] == ov[a] && views(out@)[b] == ov[b]);
                } else {
                    assert(views(out@)[a] == ov[a]);
                    assert(ov[a].0 < rv[m as int].0);
                }
            }
            assert(views(out@).to_multiset().add(views(rest@).to_multiset()) =~= all);
        }
    }
    out
}

/// The outcome of a reconstruction: the secret and the identifiers of the
/// shares found inconsistent, in the order of the sweep.
pub struct Recovery {
    pub secret: BigInt,
    pub inconsistent: Vec<BigInt>,
}

/// The integers that a sequence of `BigInt`s stands for.
pub open spec fn ints(s: Seq<BigInt>) -> Seq<int> {
    s.map_values(|b: BigInt| int_of(b))
}

/// The trial of the sweep that leaves out point `i`: the first `k` of the
/// others.
pub open spec fn trial(s: Seq<(int, int)>, i: int, k: int) -> Seq<(int, int)> {
    s.remove(i).take(k)
}

/// Every trial of the sweep has an integer value at zero; with no more than
/// `k` points the sweep makes no trial.
pub open spec fn trials_ok(s: Seq<(int, int)>, k: int) -> bool {
    s.len() > k ==> forall|i: int| 0 <= i < s.len() ==> has_value_at_zero(#[trigger] trial(s, i, k))
}

/// The x-coordinates, among the first `m` points, whose trial gives a value
/// other than `secret`, in order.
pub open spec fn flagged(s: Seq<(int, int)>, k: int, secret: int, m: int) -> Seq<int>
    decreases m,
{
    if m <= 0 {
        seq![]
    } else {
        let prev = flagged(s, k, secret, m - 1);
        if s.len() > k && value_at_zero(trial(s, m - 1, k)) != secret {
            prev.push(s[m - 1].0)
        } else {
            prev
        }
    }
}

/// What a reconstruction over the points `s`, taken in this order, with
/// threshold `k`, returns.
pub open spec fn recovery_result(s: Seq<(int, int)>, k: int, r: Result<Recovery, ShareError>) -> bool {
    &&& (k < 1 || s.len() < k) ==> r is Err && r->Err_0 == ShareError::InsufficientShares
    &&& 1 <= k <= s.len() ==> (r is Ok <==> has_value_at_zero(s.take(k)) && trials_ok(s, k))
    &&& 1 <= k <= s.len() && r is Err ==> r->Err_0 == ShareError::NonIntegerResult
    &&& r is Ok ==> {
        let secret = value_at_zero(s.take(k));
        &&& int_of(r->Ok_0.secret) == secret
        &&& ints(r->Ok_0.inconsistent@) == flagged(s, k, secret, s.len() as int)
    }
}

/// Copies of all points but the one at `i`.
pub fn without_point(points: &[Point], i: usize) -> (r: Vec<Point>)
    requires
        i < points@.len(),
    ensures
        views(r@) == views(points@).remove(i as int),
{
    let mut r: Vec<Point> = Vec::new();
    let mut j: usize = 0;
    while j < points.len()
        invariant
            i < points@.len(),
            0 <= j <= points@.len(),
            j <= i ==> views(r@) == views(points@).take(j as int),
            j > i ==> views(r@) == views(points@).remove(i as int).take(j - 1),
        decreases points.len() - j,
    {
        if j != i {
            let p = points[j].duplicate();
            proof {
                let s = views(points@);
                assert(s[j as int] == points@[j as int]@);
                assert(views(r@.push(p)) =~= views(r@).push(p@));
                if j < i {
                    assert(s.take(j + 1) =~= s.take(j as int).push(p@));
                } else {
                    assert(s.remove(i as int).take(j as int) =~= s.remove(i as int).take(j - 1).push(p@));
                }
            }
            r.push(p);
        } else {
            proof {
                let s = views(points@);
                assert(s.remove(i as int).take(j as int) =~= s.take(j as int));
            }
        }
        j += 1;
    }
    proof {
        let s = views(points@);
        assert(s.remove(i as int).take(s.len() - 1) =~= s.remove(i as int));
    }
    r
}

/// Reconstructs the secret from the first `k` points in the order given, then
/// leaves out each point in turn: where the first `k` of the others give
/// another value, that point's identifier is reported.
pub fn recover_in_order(points: &[Point], k: usize) -> (r: Result<Recovery, ShareError>)
    requires
        distinct_xs(views(points@)),
    ensures
        recovery_result(views(points@), k as int, r),
{
    let ghost s = views(points@);
    let n = points.len();
    let secret = match interpolate_at_zero(points, k) {
        Ok(v) => v,
        Err(e) => return Err(e),
    };
    let ghost sv = value_at_zero(s.take(k as int));
    let mut wrong: Vec<BigInt> = Vec::new();
    let mut i: usize = 0;
    while i < n
        invariant
            0 <= i <= n,
            n == points@.len(),
            n >= k >= 1,
            s == views(points@),
            distinct_xs(s),
            int_of(secret) == sv,
            ints(wrong@) == flagged(s, k as int, sv, i as int),
            n > k ==> forall|t: int| 0 <= t < i ==> has_value_at_zero(#[trigger] trial(s, t, k as int)),
        decreases n - i,
    {
        if n - 1 >= k {
            let others = without_point(points, i);
            proof {
                lemma_remove_distinct(s, i as int);
            }
            match interpolate_at_zero(others.as_slice(), k) {
                Ok(t) => {
                    if !big_eq(&t, &secret) {
                        let x = big_clone(&points[i].x);
                        proof {
                            assert(s[i as int] == points@[i as int]@);
                            assert(ints(wrong@.push(x)) =~= ints(wrong@).push(int_of(x)));
                        }
                        wrong.push(x);
                    }
                },
                Err(e) => {
                    assert(!has_value_at_zero(trial(s, i as int, k as int)));
                    return Err(e);
                },
            }
        }
        i += 1;
    }
    Ok(Recovery { secret, inconsistent: wrong })
}

/// Sorts the points by x and reconstructs from them in that order.
pub fn reconstruct(points: Vec<Point>, k: usize) -> (r: Result<Recovery, ShareError>)
    requires
        distinct_xs(views(points@)),
    ensures
        exists|t: Seq<(int, int)>|
            #![trigger recovery_result(t, k as int, r)]
            t.to_multiset() == views(points@).to_multiset() && strictly_sorted(t)
                && recovery_result(t, k as int, r),
{
    let sorted = sort_points(points);
    let r = recover_in_order(sorted.as_slice(), k);
    assert(recovery_result(views(sorted@), k as int, r));
    r
}

} // verus!
