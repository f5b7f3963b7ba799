//! Facts about fractions `a/b` of integers that stand for the same rational
//! number.
use crate::bigint::frac_eq;
use vstd::arithmetic::mul::lemma_mul_is_distributive_add_other_way;
use vstd::prelude::*;

verus! {

/// A common nonzero factor cancels.
pub proof fn lemma_cancel(x: int, y: int, d: int)
    requires
        x * d == y * d,
        d != 0,
    ensures
        x == y,
{
    assert(x == y) by (nonlinear_arith)
        requires
            x * d == y * d,
            d != 0,
    ;
}

/// The product of two nonzero integers is nonzero.
pub proof fn lemma_nonzero_product(a: int, b: int)
    requires
        a != 0,
        b != 0,
    ensures
        a * b != 0,
{
    assert(a * b != 0) by (nonlinear_arith)
        requires
            a != 0,
            b != 0,
    ;
}

/// Sameness of rational value is transitive through a nonzero denominator.
pub proof fn lemma_frac_trans(a: int, b: int, c: int, d: int, e: int, f: int)
    requires
        frac_eq(a, b, c, d),
        frac_eq(c, d, e, f),
        d != 0,
    ensures
        frac_eq(a, b, e, f),
{
    assert((a * f) * d == (e * b) * d) by (nonlinear_arith)
        requires
            a * d == c * b,
            c * f == e * d,
    ;
    lemma_cancel(a * f, e * b, d);
}

/// `n/d` equals the product of `a/b` and `f/g`, which equal `p/q` and `u/v`:
/// then `n/d` equals `(p*u)/(q*v)`.
pub proof fn lemma_frac_mul(
    n: int,
    d: int,
    a: int,
    b: int,
    f: int,
    g: int,
    p: int,
    q: int,
    u: int,
    v: int,
)
    requires
        frac_eq(n, d, a * f, b * g),
        frac_eq(a, b, p, q),
        frac_eq(f, g, u, v),
        b > 0,
        g > 0,
    ensures
        frac_eq(n, d, p * u, q * v),
{
    assert(b * g > 0) by (nonlinear_arith)
        requires
            b > 0,
            g > 0,
    ;
    let (aq, fv) = (a * q, f * v);
    assert((a * f) * (q * v) == aq * fv) by (nonlinear_arith)
        requires
            aq == a * q,
            fv == f * v,
    ;
    assert(aq * fv == (p * b) * (u * g));
    assert((p * b) * (u * g) == (p * u) * (b * g)) by (nonlinear_arith);
    lemma_frac_trans(n, d, a * f, b * g, p * u, q * v);
}

/// `n/d` equals the sum of `a/b` and `f/g`, which equal `p/q` and `u/v`:
/// then `n/d` equals `(p*v + u*q)/(q*v)`.
pub proof fn lemma_frac_add(
    n: int,
    d: int,
    a: int,
    b: int,
    f: int,
    g: int,
    p: int,
    q: int,
    u: int,
    v: int,
)
    requires
        frac_eq(n, d, a * g + f * b, b * g),
        frac_eq(a, b, p, q),
        frac_eq(f, g, u, v),
        b > 0,
        g > 0,
    ensures
        frac_eq(n, d, p * v + u * q, q * v),
{
    assert(b * g > 0) by (nonlinear_arith)
        requires
            b > 0,
            g > 0,
    ;
    let (aq, fv) = (a * q, f * v);
    lemma_mul_is_distributive_add_other_way(q * v, a * g, f * b);
    assert((a * g) * (q * v) == aq * (g * v)) by (nonlinear_arith)
        requires
            aq == a * q,
    ;
    assert((f * b) * (q * v) == fv * (b * q)) by (nonlinear_arith)
        requires
            fv == f * v,
    ;
    assert(aq * (g * v) == (p * b) * (g * v));
    assert(fv * (b * q) == (u * g) * (b * q));
    assert((p * b) * (g * v) == (p * v) * (b * g)) by (nonlinear_arith);
    assert((u * g) * (b * q) == (u * q) * (b * g)) by (nonlinear_arith);
    lemma_mul_is_distributive_add_other_way(b * g, p * v, u * q);
    lemma_frac_trans(n, d, a * g + f * b, b * g, p * v + u * q, q * v);
}

} // verus!
