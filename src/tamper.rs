//! How a change to one point's value moves the value at zero.
use crate::fraction::{lemma_cancel, lemma_nonzero_product};
use crate::lagrange::{
    basis_den, basis_num, distinct_xs, is_value_at_zero, lemma_basis_den_nonzero,
    lemma_sum_den_nonzero, secret_frac, sum_frac,
};
use vstd::prelude::*;

verus! {

/// `s` with `delta` added to the value of point `t`.
pub open spec fn shifted(s: Seq<(int, int)>, t: int, delta: int) -> Seq<(int, int)> {
    s.update(t, (s[t].0, s[t].1 + delta))
}

/// The basis weights read only x-coordinates.
proof fn lemma_basis_ignores_values(s: Seq<(int, int)>, t: int, delta: int, i: int, m: int)
    requires
        0 <= t < s.len(),
        0 <= i < s.len(),
        m <= s.len(),
    ensures
        basis_num(shifted(s, t, delta), i, m) == basis_num(s, i, m),
        basis_den(shifted(s, t, delta), i, m) == basis_den(s, i, m),
    decreases m,
{
    let s2 = shifted(s, t, delta);
    assert(s2[i].0 == s[i].0);
    if m > 0 {
        lemma_basis_ignores_values(s, t, delta, i, m - 1);
        assert(s2[m - 1].0 == s[m - 1].0);
    }
}

/// Over the first `m` points, the shift adds `delta` times the weight of `t`
/// to the sum, once `t` is among them.
proof fn lemma_sum_shift(s: Seq<(int, int)>, t: int, delta: int, m: int)
    requires
        0 <= t < s.len(),
        0 <= m <= s.len(),
    ensures
        sum_frac(shifted(s, t, delta), m).1 == sum_frac(s, m).1,
        m <= t ==> sum_frac(shifted(s, t, delta), m).0 == sum_frac(s, m).0,
        m > t ==> sum_frac(shifted(s, t, delta), m).0 * basis_den(s, t, s.len() as int)
            == sum_frac(s, m).0 * basis_den(s, t, s.len() as int) + delta * basis_num(
            s,
            t,
            s.len() as int,
        ) * sum_frac(s, m).1,
    decreases m,
{
    let s2 = shifted(s, t, delta);
    let n = s.len() as int;
    if m > 0 {
        let i = m - 1;
        lemma_sum_shift(s, t, delta, i);
        lemma_basis_ignores_values(s, t, delta, i, n);
        let (p, q) = sum_frac(s, i);
        let p2 = sum_frac(s2, i).0;
        let (ni, di) = (basis_num(s, i, n), basis_den(s, i, n));
        let (bn, bd) = (basis_num(s, t, n), basis_den(s, t, n));
        if i < t {
            assert(s2[i] == s[i]);
        } else if i == t {
            assert(s2[i].1 == s[i].1 + delta);
            let y = s[i].1;
            assert((p * di + (y + delta) * ni * q) * di == (p * di + y * ni * q) * di + delta * ni * (
            q * di)) by (nonlinear_arith);
        } else {
            assert(s2[i] == s[i]);
            let y = s[i].1;
            assert((p2 * di + y * ni * q) * bd == (p * di + y * ni * q) * bd + delta * bn * (q * di))
                by (nonlinear_arith)
                requires
                    p2 * bd == p * bd + delta * bn * q,
            ;
        }
    }
}

/// Changing the value of point `t` by `delta` moves the value at zero by
/// `delta` times the Lagrange weight `basis_num / basis_den` of `t`: where
/// that weight is not zero (no other x-coordinate is 0) and `delta` is not 0,
/// the value at zero changes.
pub proof fn lemma_shift_moves_value(s: Seq<(int, int)>, t: int, delta: int, v: int, v2: int)
    requires
        distinct_xs(s),
        0 <= t < s.len(),
        is_value_at_zero(s, v),
        is_value_at_zero(shifted(s, t, delta), v2),
    ensures
        (v2 - v) * basis_den(s, t, s.len() as int) == delta * basis_num(s, t, s.len() as int),
        delta != 0 && basis_num(s, t, s.len() as int) != 0 ==> v2 != v,
{
    let n = s.len() as int;
    lemma_sum_shift(s, t, delta, n);
    lemma_sum_den_nonzero(s, n);
    lemma_basis_den_nonzero(s, t, n);
    let (sn, sd) = secret_frac(s);
    let sn2 = secret_frac(shifted(s, t, delta)).0;
    let (bn, bd) = (basis_num(s, t, n), basis_den(s, t, n));
    assert(((v2 - v) * bd) * sd == (delta * bn) * sd) by (nonlinear_arith)
        requires
            v * sd == sn,
            v2 * sd == sn2,
            sn2 * bd == sn * bd + delta * bn * sd,
    ;
    lemma_cancel((v2 - v) * bd, delta * bn, sd);
    if delta != 0 && bn != 0 {
        lemma_nonzero_product(delta, bn);
        if v2 == v {
            assert((v2 - v) * bd == 0) by (nonlinear_arith)
                requires
                    v2 == v,
            ;
        }
    }
}

} // verus!
