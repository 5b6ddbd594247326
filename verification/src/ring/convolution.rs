//! The negacyclic product as a convolution over the integers, and the laws
//! that make `Z_Q[X]/(X^n + 1)` a commutative ring: multiplication is
//! commutative and associative.
//!
//! A row `b` of length `n` extends to every integer position by
//! `b(x + n) = -b(x)` (the relation `X^n = -1`); coefficient `k` of `a * b`
//! is then `sum_{i < n} a[i] * b(k - i)`.

use vstd::prelude::*;

use crate::ring::poly::{nega_sum, nega_term, row_mul};

verus! {

/// `f(lo) + ... + f(hi - 1)`.
pub open spec fn sum_range(f: spec_fn(int) -> int, lo: int, hi: int) -> int
    decreases hi - lo,
{
    if hi <= lo {
        0
    } else {
        sum_range(f, lo, hi - 1) + f(hi - 1)
    }
}

/// Sums of functions that agree on the range agree.
pub proof fn lemma_sum_ext(f: spec_fn(int) -> int, g: spec_fn(int) -> int, lo: int, hi: int)
    requires
        forall|i: int| lo <= i < hi ==> #[trigger] f(i) == g(i),
    ensures
        sum_range(f, lo, hi) == sum_range(g, lo, hi),
    decreases hi - lo,
{
    if hi > lo {
        lemma_sum_ext(f, g, lo, hi - 1);
    }
}

/// The sum of a pointwise sum is the sum of the sums.
pub proof fn lemma_sum_add(f: spec_fn(int) -> int, g: spec_fn(int) -> int, lo: int, hi: int)
    ensures
        sum_range(|i: int| f(i) + g(i), lo, hi) == sum_range(f, lo, hi) + sum_range(g, lo, hi),
    decreases hi - lo,
{
    if hi > lo {
        lemma_sum_add(f, g, lo, hi - 1);
    }
}

/// A constant factor comes out of a sum.
pub proof fn lemma_sum_scale(f: spec_fn(int) -> int, c: int, lo: int, hi: int)
    ensures
        sum_range(|i: int| c * f(i), lo, hi) == c * sum_range(f, lo, hi),
    decreases hi - lo,
{
    if hi > lo {
        lemma_sum_scale(f, c, lo, hi - 1);
        let s = sum_range(f, lo, hi - 1);
        assert(c * (s + f(hi - 1)) == c * s + c * f(hi - 1)) by (nonlinear_arith);
    }
}

/// A sum of zeros is zero.
pub proof fn lemma_sum_zero(f: spec_fn(int) -> int, lo: int, hi: int)
    requires
        forall|i: int| lo <= i < hi ==> #[trigger] f(i) == 0,
    ensures
        sum_range(f, lo, hi) == 0,
    decreases hi - lo,
{
    if hi > lo {
        lemma_sum_zero(f, lo, hi - 1);
    }
}

/// The first term of a nonempty sum splits off.
pub proof fn lemma_sum_first(f: spec_fn(int) -> int, lo: int, hi: int)
    requires
        lo < hi,
    ensures
        sum_range(f, lo, hi) == f(lo) + sum_range(f, lo + 1, hi),
    decreases hi - lo,
{
    if hi - 1 > lo {
        lemma_sum_first(f, lo, hi - 1);
        assert(sum_range(f, lo + 1, hi) == sum_range(f, lo + 1, hi - 1) + f(hi - 1));
    } else {
        assert(sum_range(f, lo, lo) == 0);
        assert(sum_range(f, lo + 1, hi) == 0);
    }
}

/// Shifting the summation index.
pub proof fn lemma_sum_shift(f: spec_fn(int) -> int, d: int, lo: int, hi: int)
    ensures
        sum_range(f, lo, hi) == sum_range(|i: int| f(i + d), lo - d, hi - d),
    decreases hi - lo,
{
    if hi > lo {
        lemma_sum_shift(f, d, lo, hi - 1);
        assert((hi - d - 1) + d == hi - 1);
    }
}

/// Reflecting the summation index about `c`: `i -> c - i`.
pub proof fn lemma_sum_reflect(f: spec_fn(int) -> int, c: int, lo: int, hi: int)
    ensures
        sum_range(f, lo, hi) == sum_range(|j: int| f(c - j), c - hi + 1, c - lo + 1),
    decreases hi - lo,
{
    let g = |j: int| f(c - j);
    if hi > lo {
        lemma_sum_reflect(f, c, lo, hi - 1);
        lemma_sum_first(g, c - hi + 1, c - lo + 1);
        assert(c - (c - hi + 1) == hi - 1);
    }
}

/// Over a function of period `n`, every window of `n` consecutive terms
/// has the same sum.
pub proof fn lemma_sum_periodic_window(g: spec_fn(int) -> int, n: int, lo: int)
    requires
        n > 0,
        forall|x: int| #[trigger] g(x + n) == g(x),
    ensures
        sum_range(g, lo, lo + n) == sum_range(g, 0, n),
    decreases (if lo >= 0 {
        lo
    } else {
        -lo
    }),
{
    if lo > 0 {
        lemma_sum_periodic_window(g, n, lo - 1);
        lemma_sum_first(g, lo - 1, lo - 1 + n);
        assert(g((lo - 1) + n) == g(lo - 1));
    } else if lo < 0 {
        lemma_sum_periodic_window(g, n, lo + 1);
        lemma_sum_first(g, lo, lo + n);
        assert(g(lo + n) == g(lo));
    }
}

/// The order of a finite double sum can be exchanged.
pub proof fn lemma_sum_swap(f: spec_fn(int, int) -> int, m: int, n: int)
    requires
        m >= 0,
    ensures
        sum_range(|i: int| sum_range(|j: int| f(i, j), 0, n), 0, m) == sum_range(
            |j: int| sum_range(|i: int| f(i, j), 0, m),
            0,
            n,
        ),
    decreases m,
{
    if m > 0 {
        lemma_sum_swap(f, m - 1, n);
        let rows = |i: int| sum_range(|j: int| f(i, j), 0, n);
        let cols = |j: int| sum_range(|i: int| f(i, j), 0, m);
        let prev = |j: int| sum_range(|i: int| f(i, j), 0, m - 1);
        let last = |j: int| f(m - 1, j);
        lemma_sum_add(prev, last, 0, n);
        lemma_sum_ext(cols, |j: int| prev(j) + last(j), 0, n);
        lemma_sum_ext(|j: int| f(m - 1, j), last, 0, n);
        assert(sum_range(rows, 0, m) == sum_range(rows, 0, m - 1) + rows(m - 1));
        assert(rows(m - 1) == sum_range(last, 0, n));
        assert(sum_range(rows, 0, m - 1) == sum_range(prev, 0, n));
    } else {
        lemma_sum_zero(|j: int| sum_range(|i: int| f(i, j), 0, m), 0, n);
    }
}

/// Sums of termwise congruent functions are congruent.
pub proof fn lemma_sum_congruent(f: spec_fn(int) -> int, g: spec_fn(int) -> int, q: int, lo: int, hi: int)
    requires
        q > 0,
        forall|i: int| lo <= i < hi ==> #[trigger] f(i) % q == g(i) % q,
    ensures
        sum_range(f, lo, hi) % q == sum_range(g, lo, hi) % q,
    decreases hi - lo,
{
    if hi > lo {
        lemma_sum_congruent(f, g, q, lo, hi - 1);
        let (a, b) = (sum_range(f, lo, hi - 1), sum_range(g, lo, hi - 1));
        vstd::arithmetic::div_mod::lemma_add_mod_noop(a, f(hi - 1), q);
        vstd::arithmetic::div_mod::lemma_add_mod_noop(b, g(hi - 1), q);
    }
}

/// `b` extended to every integer position by `b(x + n) = -b(x)`.
pub open spec fn nega_ext(b: Seq<u64>, x: int) -> int {
    let n = b.len() as int;
    let r = x % (2 * n);
    if r < n {
        b[r] as int
    } else {
        -(b[r - n] as int)
    }
}

/// Coefficient `x` of the negacyclic product over the integers:
/// `sum_{i < n} a[i] * b(x - i)`.
pub open spec fn conv(a: Seq<u64>, b: Seq<u64>, x: int) -> int {
    sum_range(|i: int| a[i] * nega_ext(b, x - i), 0, a.len() as int)
}

/// Within one period the extension reads the row, negated below zero.
pub proof fn lemma_nega_ext_in_range(b: Seq<u64>, x: int)
    requires
        b.len() > 0,
        -(b.len() as int) <= x < b.len(),
    ensures
        x >= 0 ==> nega_ext(b, x) == b[x] as int,
        x < 0 ==> nega_ext(b, x) == -(b[x + b.len()] as int),
{
    let n = b.len() as int;
    if x >= 0 {
        vstd::arithmetic::div_mod::lemma_fundamental_div_mod_converse_mod(x, 2 * n, 0, x);
    } else {
        vstd::arithmetic::div_mod::lemma_fundamental_div_mod_converse_mod(x, 2 * n, -1, x + 2 * n);
    }
}

/// Moving `n` positions negates the extension.
pub proof fn lemma_nega_ext_flip(b: Seq<u64>, x: int)
    requires
        b.len() > 0,
    ensures
        nega_ext(b, x + b.len()) == -nega_ext(b, x),
{
    let n = b.len() as int;
    let d = 2 * n;
    let r = x % d;
    let q = x / d;
    vstd::arithmetic::div_mod::lemma_fundamental_div_mod(x, d);
    vstd::arithmetic::div_mod::lemma_mod_bound(x, d);
    if r < n {
        vstd::arithmetic::div_mod::lemma_fundamental_div_mod_converse_mod(x + n, d, q, r + n);
    } else {
        assert(x + n == (q + 1) * d + (r - n)) by (nonlinear_arith)
            requires
                x == d * q + r,
                d == 2 * n,
        ;
        vstd::arithmetic::div_mod::lemma_fundamental_div_mod_converse_mod(x + n, d, q + 1, r - n);
    }
}

/// `nega_sum` is the convolution sum of the extension.
pub proof fn lemma_nega_sum_is_conv(a: Seq<u64>, b: Seq<u64>, k: int, m: int)
    requires
        a.len() == b.len(),
        0 <= k < a.len(),
        0 <= m <= a.len(),
    ensures
        nega_sum(a, b, k, m, a.len() as int) == sum_range(|i: int| a[i] * nega_ext(b, k - i), 0, m),
    decreases m,
{
    let n = a.len() as int;
    if m > 0 {
        lemma_nega_sum_is_conv(a, b, k, m - 1);
        let i = m - 1;
        lemma_nega_ext_in_range(b, k - i);
        if i > k {
            let (u, v) = (a[i] as int, b[k + n - i] as int);
            assert(u * (-v) == -(u * v)) by (nonlinear_arith);
        }
        assert(nega_term(a, b, k, i, n) == a[i] * nega_ext(b, k - i));
    }
}

/// Coefficient `k` of a row product is the convolution reduced modulo `q`.
pub proof fn lemma_row_mul_is_conv(a: Seq<u64>, b: Seq<u64>, q: u64, k: int)
    requires
        a.len() == b.len(),
        0 <= k < a.len(),
        q > 0,
    ensures
        row_mul(a, b, q)[k] == conv(a, b, k) % (q as int),
{
    lemma_nega_sum_is_conv(a, b, k, a.len() as int);
    vstd::arithmetic::div_mod::lemma_mod_bound(conv(a, b, k), q as int);
}

/// Moving `n` positions negates the convolution.
pub proof fn lemma_conv_flip(a: Seq<u64>, b: Seq<u64>, x: int)
    requires
        a.len() == b.len(),
        a.len() > 0,
    ensures
        conv(a, b, x + a.len()) == -conv(a, b, x),
{
    let n = a.len() as int;
    let f = |i: int| a[i] * nega_ext(b, x - i);
    assert forall|i: int| 0 <= i < n implies #[trigger] (a[i] * nega_ext(b, x + n - i)) == -1 * f(i) by {
        lemma_nega_ext_flip(b, x - i);
        assert(x - i + n == x + n - i);
        let (u, v) = (a[i] as int, nega_ext(b, x - i));
        assert(u * (-v) == -1 * (u * v)) by (nonlinear_arith);
    }
    lemma_sum_ext(|i: int| a[i] * nega_ext(b, x + n - i), |i: int| -1 * f(i), 0, n);
    lemma_sum_scale(f, -1, 0, n);
}

/// The convolution is symmetric: `(a * b)(k) == (b * a)(k)`.
pub proof fn lemma_conv_commutes(a: Seq<u64>, b: Seq<u64>, k: int)
    requires
        a.len() == b.len(),
        a.len() > 0,
    ensures
        conv(a, b, k) == conv(b, a, k),
{
    let n = a.len() as int;
    let h = |i: int| nega_ext(a, i) * nega_ext(b, k - i);
    assert forall|i: int| 0 <= i < n implies #[trigger] (a[i] * nega_ext(b, k - i)) == h(i) by {
        lemma_nega_ext_in_range(a, i);
    }
    lemma_sum_ext(|i: int| a[i] * nega_ext(b, k - i), h, 0, n);
    lemma_sum_reflect(h, k, 0, n);
    let g = |j: int| nega_ext(a, k - j) * nega_ext(b, j);
    assert forall|j: int| k - n + 1 <= j < k + 1 implies #[trigger] h(k - j) == g(j) by {
        assert(k - (k - j) == j);
    }
    lemma_sum_ext(|j: int| h(k - j), g, k - n + 1, k + 1);
    assert forall|x: int| #[trigger] g(x + n) == g(x) by {
        lemma_nega_ext_flip(b, x);
        lemma_nega_ext_flip(a, k - x - n);
        assert(k - x - n + n == k - x);
        assert(k - (x + n) == k - x - n);
        let (u, v) = (nega_ext(a, k - x), nega_ext(b, x));
        assert(nega_ext(a, k - (x + n)) == -u);
        assert(nega_ext(b, x + n) == -v);
        assert((-u) * (-v) == u * v) by (nonlinear_arith);
    }
    lemma_sum_periodic_window(g, n, k - n + 1);
    assert(k - n + 1 + n == k + 1);
    assert forall|j: int| 0 <= j < n implies #[trigger] g(j) == b[j] * nega_ext(a, k - j) by {
        lemma_nega_ext_in_range(b, j);
        let (u, v) = (nega_ext(a, k - j), b[j] as int);
        assert(u * v == v * u) by (nonlinear_arith);
    }
    lemma_sum_ext(g, |j: int| b[j] * nega_ext(a, k - j), 0, n);
}

/// The extension of a reduced row product agrees with the convolution
/// modulo `q` within one period on either side of zero.
pub proof fn lemma_ext_of_reduced(a: Seq<u64>, b: Seq<u64>, q: u64, x: int)
    requires
        a.len() == b.len(),
        a.len() > 0,
        q > 0,
        -(a.len() as int) <= x < a.len(),
    ensures
        nega_ext(row_mul(a, b, q), x) % (q as int) == conv(a, b, x) % (q as int),
{
    let n = a.len() as int;
    let p = row_mul(a, b, q);
    let qi = q as int;
    lemma_nega_ext_in_range(p, x);
    if x >= 0 {
        lemma_row_mul_is_conv(a, b, q, x);
        vstd::arithmetic::div_mod::lemma_mod_twice(conv(a, b, x), qi);
    } else {
        lemma_row_mul_is_conv(a, b, q, x + n);
        lemma_conv_flip(a, b, x);
        let y = conv(a, b, x + n);
        vstd::arithmetic::div_mod::lemma_sub_mod_noop(0, y, qi);
        vstd::arithmetic::div_mod::lemma_small_mod(0, q as nat);
        vstd::arithmetic::div_mod::lemma_sub_mod_noop_right(0, y, qi);
    }
}

/// `sum_{i < n} b(i - j) * c(k - i)` is the convolution of `b` and `c` at
/// `k - j`: the product is unchanged by moving `n` positions, so any window
/// of `n` terms gives the same sum.
pub proof fn lemma_shifted_window(b: Seq<u64>, c: Seq<u64>, j: int, k: int)
    requires
        b.len() == c.len(),
        b.len() > 0,
    ensures
        sum_range(|i: int| nega_ext(b, i - j) * nega_ext(c, k - i), 0, b.len() as int) == conv(b, c, k - j),
{
    let n = b.len() as int;
    let f = |i: int| nega_ext(b, i - j) * nega_ext(c, k - i);
    lemma_sum_shift(f, j, 0, n);
    let g = |x: int| nega_ext(b, x) * nega_ext(c, (k - j) - x);
    assert forall|x: int| -j <= x < n - j implies #[trigger] f(x + j) == g(x) by {
        assert(x + j - j == x);
        assert(k - (x + j) == (k - j) - x);
    }
    lemma_sum_ext(|x: int| f(x + j), g, -j, n - j);
    assert forall|x: int| #[trigger] g(x + n) == g(x) by {
        lemma_nega_ext_flip(b, x);
        lemma_nega_ext_flip(c, (k - j) - x - n);
        assert((k - j) - x - n + n == (k - j) - x);
        assert((k - j) - (x + n) == (k - j) - x - n);
        let (u, v) = (nega_ext(b, x), nega_ext(c, (k - j) - x));
        assert(nega_ext(b, x + n) == -u);
        assert(nega_ext(c, (k - j) - (x + n)) == -v);
        assert((-u) * (-v) == u * v) by (nonlinear_arith);
    }
    lemma_sum_periodic_window(g, n, -j);
    assert(-j + n == n - j);
    assert forall|x: int| 0 <= x < n implies #[trigger] g(x) == b[x] * nega_ext(c, (k - j) - x) by {
        lemma_nega_ext_in_range(b, x);
    }
    lemma_sum_ext(g, |x: int| b[x] * nega_ext(c, (k - j) - x), 0, n);
}

/// Both ways of bracketing a triple product reduce, modulo `q`, to
/// `sum_j a[j] * (b * c)(k - j)`.
pub proof fn lemma_conv_associates(a: Seq<u64>, b: Seq<u64>, c: Seq<u64>, q: u64, k: int)
    requires
        a.len() == b.len(),
        b.len() == c.len(),
        a.len() > 0,
        q > 0,
        0 <= k < a.len(),
    ensures
        conv(row_mul(a, b, q), c, k) % (q as int) == conv(a, row_mul(b, c, q), k) % (q as int),
{
    let n = a.len() as int;
    let qi = q as int;
    let p = row_mul(a, b, q);
    let r = row_mul(b, c, q);
    let t = sum_range(|j: int| a[j] * conv(b, c, k - j), 0, n);
    let ff = |i: int, j: int| a[j] * (nega_ext(b, i - j) * nega_ext(c, k - i));
    // Left bracketing.
    let s1 = |i: int| conv(a, b, i) * nega_ext(c, k - i);
    assert forall|i: int| 0 <= i < n implies #[trigger] (p[i] * nega_ext(c, k - i)) % qi == s1(i) % qi by {
        lemma_row_mul_is_conv(a, b, q, i);
        vstd::arithmetic::div_mod::lemma_mul_mod_noop_left(conv(a, b, i), nega_ext(c, k - i), qi);
    }
    lemma_sum_congruent(|i: int| p[i] * nega_ext(c, k - i), s1, qi, 0, n);
    assert forall|i: int| 0 <= i < n implies #[trigger] s1(i) == sum_range(|j: int| ff(i, j), 0, n) by {
        let ci = nega_ext(c, k - i);
        let inner = |j: int| a[j] * nega_ext(b, i - j);
        lemma_sum_scale(inner, ci, 0, n);
        assert(ci * conv(a, b, i) == conv(a, b, i) * ci) by (nonlinear_arith);
        assert forall|j: int| 0 <= j < n implies #[trigger] (ci * inner(j)) == ff(i, j) by {
            let (x, y) = (a[j] as int, nega_ext(b, i - j));
            assert(ci * (x * y) == x * (y * ci)) by (nonlinear_arith);
        }
        lemma_sum_ext(|j: int| ci * inner(j), |j: int| ff(i, j), 0, n);
    }
    lemma_sum_ext(s1, |i: int| sum_range(|j: int| ff(i, j), 0, n), 0, n);
    lemma_sum_swap(ff, n, n);
    let colsum = |j: int| sum_range(|i: int| ff(i, j), 0, n);
    assert forall|j: int| 0 <= j < n implies #[trigger] colsum(j) == a[j] * conv(b, c, k - j) by {
        let inner = |i: int| nega_ext(b, i - j) * nega_ext(c, k - i);
        lemma_sum_scale(inner, a[j] as int, 0, n);
        lemma_sum_ext(|i: int| ff(i, j), |i: int| (a[j] as int) * inner(i), 0, n);
        lemma_shifted_window(b, c, j, k);
    }
    lemma_sum_ext(colsum, |j: int| a[j] * conv(b, c, k - j), 0, n);
    // Right bracketing.
    assert forall|j: int| 0 <= j < n implies #[trigger] (a[j] * nega_ext(r, k - j)) % qi == (a[j] * conv(
        b,
        c,
        k - j,
    )) % qi by {
        lemma_ext_of_reduced(b, c, q, k - j);
        vstd::arithmetic::div_mod::lemma_mul_mod_noop_right(a[j] as int, nega_ext(r, k - j), qi);
        vstd::arithmetic::div_mod::lemma_mul_mod_noop_right(a[j] as int, conv(b, c, k - j), qi);
    }
    lemma_sum_congruent(|j: int| a[j] * nega_ext(r, k - j), |j: int| a[j] * conv(b, c, k - j), qi, 0, n);
}

} // verus!
