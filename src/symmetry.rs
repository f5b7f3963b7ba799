//! The value at zero depends on the set of points, not on their order.
use crate::lagrange::{
    basis_den, basis_num, has_value_at_zero, is_value_at_zero, secret_frac, sum_frac,
    value_at_zero,
};
use vstd::arithmetic::mul::lemma_mul_is_distributive_add_other_way;
use vstd::prelude::*;

verus! {

broadcast use vstd::seq_lib::group_to_multiset_ensures;

/// The points with those at `a` and `a + 1` exchanged.
pub open spec fn swap_next(s: Seq<(int, int)>, a: int) -> Seq<(int, int)> {
    s.update(a, s[a + 1]).update(a + 1, s[a])
}

/// Where the point at `i` of `s` stands in `swap_next(s, a)`.
pub open spec fn swapped_index(a: int, i: int) -> int {
    if i == a {
        a + 1
    } else if i == a + 1 {
        a
    } else {
        i
    }
}

/// The factor that position `j` adds to the numerator of the weight of `i`.
pub open spec fn num_factor(s: Seq<(int, int)>, i: int, j: int) -> int {
    if j == i {
        1
    } else {
        -s[j].0
    }
}

/// The factor that position `j` adds to the denominator of the weight of `i`.
pub open spec fn den_factor(s: Seq<(int, int)>, i: int, j: int) -> int {
    if j == i {
        1
    } else {
        s[i].0 - s[j].0
    }
}

/// One more position multiplies in one more factor.
proof fn lemma_basis_step(s: Seq<(int, int)>, i: int, m: int)
    requires
        m > 0,
    ensures
        basis_num(s, i, m) == basis_num(s, i, m - 1) * num_factor(s, i, m - 1),
        basis_den(s, i, m) == basis_den(s, i, m - 1) * den_factor(s, i, m - 1),
{
}

/// The weights of a point do not change when two neighbours are exchanged.
proof fn lemma_basis_swap(s: Seq<(int, int)>, a: int, i: int, m: int)
    requires
        0 <= a,
        a + 1 < s.len(),
        0 <= i < s.len(),
        m <= a || a + 2 <= m,
        m <= s.len(),
    ensures
        basis_num(swap_next(s, a), swapped_index(a, i), m) == basis_num(s, i, m),
        basis_den(swap_next(s, a), swapped_index(a, i), m) == basis_den(s, i, m),
    decreases m,
{
    let t = swap_next(s, a);
    let si = swapped_index(a, i);
    assert(t[si] == s[i]);
    if m <= 0 {
    } else if m <= a || a + 2 < m {
        lemma_basis_swap(s, a, i, m - 1);
        lemma_basis_step(s, i, m);
        lemma_basis_step(t, si, m);
        assert(t[m - 1] == s[m - 1]);
    } else {
        lemma_basis_swap(s, a, i, a);
        lemma_basis_step(s, i, a + 2);
        lemma_basis_step(s, i, a + 1);
        lemma_basis_step(t, si, a + 2);
        lemma_basis_step(t, si, a + 1);
        assert(t[a] == s[a + 1] && t[a + 1] == s[a]);
        assert(num_factor(t, si, a) == num_factor(s, i, a + 1));
        assert(num_factor(t, si, a + 1) == num_factor(s, i, a));
        assert(den_factor(t, si, a) == den_factor(s, i, a + 1));
        assert(den_factor(t, si, a + 1) == den_factor(s, i, a));
        let (p, f, g) = (basis_num(s, i, a), num_factor(s, i, a), num_factor(s, i, a + 1));
        assert((p * g) * f == (p * f) * g) by (nonlinear_arith);
        let (p, f, g) = (basis_den(s, i, a), den_factor(s, i, a), den_factor(s, i, a + 1));
        assert((p * g) * f == (p * f) * g) by (nonlinear_arith);
    }
}

/// Adding two terms to a fraction in either order gives the same fraction.
proof fn lemma_two_terms_commute(p: int, q: int, n1: int, d1: int, n2: int, d2: int)
    ensures
        (p * d1 + n1 * q) * d2 + n2 * (q * d1) == (p * d2 + n2 * q) * d1 + n1 * (q * d2),
        (q * d1) * d2 == (q * d2) * d1,
{
    lemma_mul_is_distributive_add_other_way(d2, p * d1, n1 * q);
    lemma_mul_is_distributive_add_other_way(d1, p * d2, n2 * q);
    assert((p * d1) * d2 == (p * d2) * d1) by (nonlinear_arith);
    assert((n1 * q) * d2 == n1 * (q * d2)) by (nonlinear_arith);
    assert((n2 * q) * d1 == n2 * (q * d1)) by (nonlinear_arith);
    assert((q * d1) * d2 == (q * d2) * d1) by (nonlinear_arith);
}

/// Exchanging two neighbouring points leaves the sum exactly as it was.
proof fn lemma_sum_swap(s: Seq<(int, int)>, a: int, m: int)
    requires
        0 <= a,
        a + 1 < s.len(),
        m <= a || a + 2 <= m,
        m <= s.len(),
    ensures
        sum_frac(swap_next(s, a), m) == sum_frac(s, m),
    decreases m,
{
    let t = swap_next(s, a);
    let n = s.len() as int;
    if m <= 0 {
    } else if m <= a || a + 2 < m {
        lemma_sum_swap(s, a, m - 1);
        lemma_basis_swap(s, a, m - 1, n);
        assert(t[m - 1] == s[m - 1]);
    } else {
        lemma_sum_swap(s, a, a);
        lemma_basis_swap(s, a, a, n);
        lemma_basis_swap(s, a, a + 1, n);
        assert(t[a] == s[a + 1] && t[a + 1] == s[a]);
        let pq = sum_frac(s, a);
        assert(sum_frac(t, a + 1) == (
            pq.0 * basis_den(t, a, n) + t[a].1 * basis_num(t, a, n) * pq.1,
            pq.1 * basis_den(t, a, n),
        ));
        assert(sum_frac(s, a + 1) == (
            pq.0 * basis_den(s, a, n) + s[a].1 * basis_num(s, a, n) * pq.1,
            pq.1 * basis_den(s, a, n),
        ));
        lemma_two_terms_commute(
            pq.0,
            pq.1,
            s[a].1 * basis_num(s, a, n),
            basis_den(s, a, n),
            s[a + 1].1 * basis_num(s, a + 1, n),
            basis_den(s, a + 1, n),
        );
    }
}

/// `b` with the point at `j` moved forward to position `q`.
pub open spec fn move_to(b: Seq<(int, int)>, q: int, j: int) -> Seq<(int, int)> {
    b.take(q) + seq![b[j]] + b.subrange(q, j) + b.skip(j + 1)
}

/// Moving a point forward is a series of exchanges of neighbours.
proof fn lemma_move(b: Seq<(int, int)>, q: int, j: int)
    requires
        0 <= q <= j < b.len(),
    ensures
        secret_frac(move_to(b, q, j)) == secret_frac(b),
    decreases j - q,
{
    if j == q {
        assert(move_to(b, q, j) =~= b);
    } else {
        let b1 = swap_next(b, j - 1);
        lemma_sum_swap(b, j - 1, b.len() as int);
        lemma_move(b1, q, j - 1);
        assert(move_to(b1, q, j - 1) =~= move_to(b, q, j));
    }
}

/// After a common prefix, two orderings of the same points give the same
/// fraction.
proof fn lemma_permuted_suffix(p: Seq<(int, int)>, a: Seq<(int, int)>, b: Seq<(int, int)>)
    requires
        a.to_multiset() == b.to_multiset(),
    ensures
        secret_frac(p + a) == secret_frac(p + b),
    decreases a.len(),
{
    assert(a.len() == a.to_multiset().len());
    assert(b.len() == b.to_multiset().len());
    if a.len() == 0 {
        assert(a =~= b);
    } else {
        let e = a[0];
        assert(a.to_multiset().contains(e));
        assert(b.contains(e));
        let j = choose|j: int| 0 <= j < b.len() && b[j] == e;
        let c = p + b;
        lemma_move(c, p.len() as int, p.len() + j);
        assert(move_to(c, p.len() as int, p.len() + j) =~= p.push(e) + b.remove(j));
        assert(a.remove(0) =~= a.drop_first());
        lemma_permuted_suffix(p.push(e), a.drop_first(), b.remove(j));
        assert(p + a =~= p.push(e) + a.drop_first());
    }
}

/// Order independence: two orderings of the same points have the same value
/// at zero, or both have none.
pub proof fn lemma_order_independent(s: Seq<(int, int)>, t: Seq<(int, int)>)
    requires
        s.to_multiset() == t.to_multiset(),
    ensures
        has_value_at_zero(s) == has_value_at_zero(t),
        value_at_zero(s) == value_at_zero(t),
{
    lemma_permuted_suffix(seq![], s, t);
    assert(seq![] + s =~= s);
    assert(seq![] + t =~= t);
    assert(forall|v: int| is_value_at_zero(s, v) == is_value_at_zero(t, v));
    assert(value_at_zero(s) == value_at_zero(t));
}

} // verus!
