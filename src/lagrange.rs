//! Lagrange interpolation at zero, in exact rational arithmetic.
use crate::bigint::{
    big_clone, big_neg, big_sub, denom_of, frac_eq, int_of, numer_of, rat_add, rat_div, rat_eq,
    rat_from_integer, rat_mul, rat_ok, rat_one, rat_to_integer, rat_zero, trunc_div,
};
use crate::error::ShareError;
use crate::fraction::{lemma_cancel, lemma_frac_mul, lemma_frac_add, lemma_nonzero_product};
use num_bigint::BigInt;
use vstd::arithmetic::div_mod::lemma_div_multiples_vanish;
use vstd::prelude::*;

verus! {

/// A decoded share: the identifier `x` and the value `y` of the polynomial
/// there.
pub struct Point {
    pub x: BigInt,
    pub y: BigInt,
}

impl View for Point {
    type V = (int, int);

    open spec fn view(&self) -> (int, int) {
        (int_of(self.x), int_of(self.y))
    }
}

impl Point {
    pub fn new(x: BigInt, y: BigInt) -> (r: Point)
        ensures
            r@ == (int_of(x), int_of(y)),
    {
        Point { x, y }
    }

    /// A copy of the point.
    pub fn duplicate(&self) -> (r: Point)
        ensures
            r@ == self@,
    {
        Point { x: big_clone(&self.x), y: big_clone(&self.y) }
    }
}

/// The integer pairs that a sequence of points stands for.
pub open spec fn views(s: Seq<Point>) -> Seq<(int, int)> {
    s.map_values(|p: Point| p@)
}

/// No two points share an x-coordinate.
pub open spec fn distinct_xs(s: Seq<(int, int)>) -> bool {
    forall|i: int, j: int|
        0 <= i < s.len() && 0 <= j < s.len() && i != j ==> #[trigger] s[i].0 != #[trigger] s[j].0
}

/// Numerator of the Lagrange basis weight of point `i` at zero, over the
/// first `m` points: the product of `-x_j` for `j != i`.
pub open spec fn basis_num(s: Seq<(int, int)>, i: int, m: int) -> int
    decreases m,
{
    if m <= 0 {
        1
    } else if m - 1 == i {
        basis_num(s, i, m - 1)
    } else {
        basis_num(s, i, m - 1) * (-s[m - 1].0)
    }
}

/// Denominator of that weight: the product of `x_i - x_j` for `j != i`.
pub open spec fn basis_den(s: Seq<(int, int)>, i: int, m: int) -> int
    decreases m,
{
    if m <= 0 {
        1
    } else if m - 1 == i {
        basis_den(s, i, m - 1)
    } else {
        basis_den(s, i, m - 1) * (s[i].0 - s[m - 1].0)
    }
}

/// The sum of `y_i` times the basis weight of point `i`, over the first `m`
/// points, as a fraction (numerator, denominator) on the common denominator.
pub open spec fn sum_frac(s: Seq<(int, int)>, m: int) -> (int, int)
    decreases m,
{
    if m <= 0 {
        (0, 1)
    } else {
        let p = sum_frac(s, m - 1);
        let i = m - 1;
        let n = s[i].1 * basis_num(s, i, s.len() as int);
        let d = basis_den(s, i, s.len() as int);
        (p.0 * d + n * p.1, p.1 * d)
    }
}

/// The value at zero of the polynomial through all the points, as a fraction.
pub open spec fn secret_frac(s: Seq<(int, int)>) -> (int, int) {
    sum_frac(s, s.len() as int)
}

/// `v` is the value at zero of the polynomial through the points.
pub open spec fn is_value_at_zero(s: Seq<(int, int)>, v: int) -> bool {
    is_quotient(secret_frac(s), v)
}

/// The polynomial through the points takes an integer value at zero.
pub open spec fn has_value_at_zero(s: Seq<(int, int)>) -> bool {
    exists|v: int| #[trigger] is_value_at_zero(s, v)
}

/// `v` is the quotient of the fraction `f`.
pub open spec fn is_quotient(f: (int, int), v: int) -> bool {
    v * f.1 == f.0
}

/// That integer value.
pub open spec fn value_at_zero(s: Seq<(int, int)>) -> int {
    choose|v: int| #[trigger] is_quotient(secret_frac(s), v)
}

/// With distinct x-coordinates, no basis denominator is zero.
pub proof fn lemma_basis_den_nonzero(s: Seq<(int, int)>, i: int, m: int)
    requires
        distinct_xs(s),
        0 <= i < s.len(),
        m <= s.len(),
    ensures
        basis_den(s, i, m) != 0,
    decreases m,
{
    if m > 0 {
        lemma_basis_den_nonzero(s, i, m - 1);
        if m - 1 != i {
            assert(s[i].0 != s[m - 1].0);
            lemma_nonzero_product(basis_den(s, i, m - 1), s[i].0 - s[m - 1].0);
        }
    }
}

/// With distinct x-coordinates, the common denominator of the sum is not
/// zero.
pub proof fn lemma_sum_den_nonzero(s: Seq<(int, int)>, m: int)
    requires
        distinct_xs(s),
        m <= s.len(),
    ensures
        sum_frac(s, m).1 != 0,
    decreases m,
{
    if m > 0 {
        lemma_sum_den_nonzero(s, m - 1);
        lemma_basis_den_nonzero(s, m - 1, s.len() as int);
        lemma_nonzero_product(sum_frac(s, m - 1).1, basis_den(s, m - 1, s.len() as int));
    }
}

/// The value at zero is unique: with distinct x-coordinates, two integers
/// that are both the value at zero are the same.
pub proof fn lemma_value_unique(s: Seq<(int, int)>, v: int, w: int)
    requires
        distinct_xs(s),
        is_value_at_zero(s, v),
        is_value_at_zero(s, w),
    ensures
        v == w,
{
    lemma_sum_den_nonzero(s, s.len() as int);
    lemma_cancel(v, w, secret_frac(s).1);
}

/// A multiple of a positive `d`, divided by `d` rounding towards zero, gives
/// back the factor.
proof fn lemma_trunc_div_exact(v: int, d: int)
    requires
        d > 0,
    ensures
        trunc_div(v * d, d) == v,
{
    lemma_div_multiples_vanish(v, d);
    lemma_div_multiples_vanish(-v, d);
    assert(d * v == v * d) by (nonlinear_arith);
    assert(d * (-v) == -(v * d)) by (nonlinear_arith);
}

/// The value at zero of the polynomial through the given points, which must
/// be an integer.
pub fn lagrange_at_zero(points: &[Point]) -> (r: Result<BigInt, ShareError>)
    requires
        distinct_xs(views(points@)),
    ensures
        r is Ok <==> has_value_at_zero(views(points@)),
        r is Ok ==> int_of(r->Ok_0) == value_at_zero(views(points@)),
        r is Err ==> r->Err_0 == ShareError::NonIntegerResult,
{
    let ghost s = views(points@);
    let n = points.len();
    let mut secret = rat_zero();
    let mut i: usize = 0;
    while i < n
        invariant
            0 <= i <= n,
            n == points@.len(),
            s == views(points@),
            distinct_xs(s),
            rat_ok(secret),
            frac_eq(numer_of(secret), denom_of(secret), sum_frac(s, i as int).0, sum_frac(s, i as int).1),
        decreases n - i,
    {
        let xi = &points[i].x;
        assert(s[i as int] == points@[i as int]@);
        let mut li = rat_one();
        let mut j: usize = 0;
        while j < n
            invariant
                0 <= i < n,
                0 <= j <= n,
                n == points@.len(),
                s == views(points@),
                distinct_xs(s),
                int_of(*xi) == s[i as int].0,
                rat_ok(li),
                frac_eq(numer_of(li), denom_of(li), basis_num(s, i as int, j as int), basis_den(s, i as int, j as int)),
            decreases n - j,
        {
            if j != i {
                let xj = &points[j].x;
                assert(s[j as int] == points@[j as int]@);
                assert(s[i as int].0 != s[j as int].0);
                let num = rat_from_integer(big_neg(xj));
                let den = rat_from_integer(big_sub(xi, xj));
                let f = rat_div(num, den);
                let ghost (a, b) = (numer_of(li), denom_of(li));
                li = rat_mul(li, f);
                proof {
                    let u = -s[j as int].0;
                    let v = s[i as int].0 - s[j as int].0;
                    assert(frac_eq(numer_of(f), denom_of(f), u, v));
                    lemma_frac_mul(
                        numer_of(li),
                        denom_of(li),
                        a,
                        b,
                        numer_of(f),
                        denom_of(f),
                        basis_num(s, i as int, j as int),
                        basis_den(s, i as int, j as int),
                        u,
                        v,
                    );
                }
            }
            j += 1;
        }
        let yi = big_clone(&points[i].y);
        let ghost (bn, bd) = (numer_of(li), denom_of(li));
        let term = rat_mul(rat_from_integer(yi), li);
        let ghost (a, b) = (numer_of(secret), denom_of(secret));
        let ghost (p, q) = sum_frac(s, i as int);
        let ghost y = s[i as int].1;
        let ghost (u, v) = (basis_num(s, i as int, n as int), basis_den(s, i as int, n as int));
        proof {
            lemma_frac_mul(numer_of(term), denom_of(term), y, 1, bn, bd, y, 1, u, v);
            assert(1 * v == v);
        }
        let ghost (f, g) = (numer_of(term), denom_of(term));
        secret = rat_add(secret, term);
        proof {
            lemma_frac_add(numer_of(secret), denom_of(secret), a, b, f, g, p, q, y * u, v);
        }
        i += 1;
    }
    let ghost (sn, sd) = secret_frac(s);
    let ghost (sa, sb) = (numer_of(secret), denom_of(secret));
    proof {
        lemma_sum_den_nonzero(s, n as int);
    }
    let q = rat_to_integer(&secret);
    let whole = rat_from_integer(big_clone(&q));
    if rat_eq(&whole, &secret) {
        proof {
            let w = int_of(q);
            assert((w * sd) * sb == sn * sb) by (nonlinear_arith)
                requires
                    w * sb == sa * 1,
                    sa * sd == sn * sb,
            ;
            lemma_cancel(w * sd, sn, sb);
            assert(is_value_at_zero(s, w));
            lemma_value_unique(s, w, value_at_zero(s));
        }
        Ok(q)
    } else {
        proof {
            if has_value_at_zero(s) {
                let w = choose|w: int| is_value_at_zero(s, w);
                assert((w * sb) * sd == sa * sd) by (nonlinear_arith)
                    requires
                        w * sd == sn,
                        sa * sd == sn * sb,
                ;
                lemma_cancel(w * sb, sa, sd);
                lemma_trunc_div_exact(w, sb);
            }
        }
        Err(ShareError::NonIntegerResult)
    }
}


/// Distinct x-coordinates stay distinct in a prefix.
pub proof fn lemma_take_distinct(s: Seq<(int, int)>, k: int)
    requires
        distinct_xs(s),
        0 <= k <= s.len(),
    ensures
        distinct_xs(s.take(k)),
{
    assert forall|i: int, j: int|
        0 <= i < s.take(k).len() && 0 <= j < s.take(k).len() && i != j implies #[trigger] s.take(k)[i].0
        != #[trigger] s.take(k)[j].0 by {
        assert(s.take(k)[i] == s[i] && s.take(k)[j] == s[j]);
    }
}

/// Copies of the first `k` points.
pub fn take_points(points: &[Point], k: usize) -> (r: Vec<Point>)
    requires
        k <= points@.len(),
    ensures
        views(r@) == views(points@).take(k as int),
{
    let mut r: Vec<Point> = Vec::new();
    let mut i: usize = 0;
    while i < k
        invariant
            0 <= i <= k,
            k <= points@.len(),
            views(r@) == views(points@).take(i as int),
        decreases k - i,
    {
        let p = points[i].duplicate();
        proof {
            assert(views(points@)[i as int] == points@[i as int]@);
            assert(views(r@.push(p)) =~= views(r@).push(p@));
            assert(views(points@).take(i + 1) =~= views(points@).take(i as int).push(p@));
        }
        r.push(p);
        i += 1;
    }
    r
}

/// What `interpolate_at_zero` returns for the points `s` and threshold `k`.
pub open spec fn interpolation_result(s: Seq<(int, int)>, k: int, r: Result<BigInt, ShareError>) -> bool {
    &&& (k < 1 || s.len() < k) ==> r is Err && r->Err_0 == ShareError::InsufficientShares
    &&& 1 <= k <= s.len() ==> (r is Ok <==> has_value_at_zero(s.take(k)))
    &&& 1 <= k <= s.len() && r is Ok ==> int_of(r->Ok_0) == value_at_zero(s.take(k))
    &&& 1 <= k <= s.len() && r is Err ==> r->Err_0 == ShareError::NonIntegerResult
}

/// The value at zero of the polynomial through the first `k` points; fewer
/// than `k` points, or a threshold of 0, is an error.
pub fn interpolate_at_zero(points: &[Point], k: usize) -> (r: Result<BigInt, ShareError>)
    requires
        distinct_xs(views(points@)),
    ensures
        interpolation_result(views(points@), k as int, r),
{
    if k < 1 || points.len() < k {
        return Err(ShareError::InsufficientShares);
    }
    let first = take_points(points, k);
    proof {
        lemma_take_distinct(views(points@), k as int);
    }
    lagrange_at_zero(first.as_slice())
}

} // verus!
