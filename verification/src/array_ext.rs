//! Sums, means and the unbiased sample variance of fixed-point vectors.
//!
//! Quotients are rounded down, so every result is again a whole number of the
//! caller's unit (of its square, for a variance).

use vstd::prelude::*;
use vstd::arithmetic::div_mod::{
    lemma_div_by_multiple,
    lemma_div_denominator,
    lemma_fundamental_div_mod,
    lemma_fundamental_div_mod_converse,
};
use crate::arrays::Vector;

verus! {

/// The longest vector, and the tallest matrix, that the arithmetic is proved for.
pub const MAX_ROWS: usize = 0xFFFF_FFFF;

/// The sum of the entries.
pub open spec fn sum(v: Seq<i32>) -> int
    decreases v.len(),
{
    if v.len() == 0 {
        0
    } else {
        sum(v.drop_last()) + v.last()
    }
}

/// The sum of the squares of the entries.
pub open spec fn sum_sq(v: Seq<i32>) -> int
    decreases v.len(),
{
    if v.len() == 0 {
        0
    } else {
        sum_sq(v.drop_last()) + v.last() * v.last()
    }
}

/// The arithmetic mean, rounded down; the mean of nothing is 0.
pub open spec fn mean(v: Seq<i32>) -> int {
    if v.len() == 0 {
        0
    } else {
        sum(v) / (v.len() as int)
    }
}

/// The sum of `(n * x - s)^2` over the entries `x`. With `n` the length and `s` the
/// sum, this is `n^2` times the sum of the squared distances from the exact mean.
pub open spec fn scaled_sq_dev(v: Seq<i32>, n: int, s: int) -> int
    decreases v.len(),
{
    if v.len() == 0 {
        0
    } else {
        scaled_sq_dev(v.drop_last(), n, s) + (n * v.last() - s) * (n * v.last() - s)
    }
}

/// The unbiased sample variance, rounded down: the squared distances from the exact
/// mean, summed and divided by `n - 1`. Fewer than two entries have variance 0.
pub open spec fn sample_variance(v: Seq<i32>) -> int {
    let n = v.len() as int;
    if n < 2 {
        0
    } else {
        scaled_sq_dev(v, n, sum(v)) / (n * n * (n - 1))
    }
}

/// The sum of `len` entries lies between `len` times the least and `len` times the
/// greatest `i32`.
pub proof fn lemma_sum_bounds(v: Seq<i32>)
    ensures
        v.len() * (i32::MIN as int) <= sum(v) <= v.len() * (i32::MAX as int),
    decreases v.len(),
{
    if v.len() > 0 {
        lemma_sum_bounds(v.drop_last());
        assert(v.len() * (i32::MIN as int) == v.drop_last().len() * (i32::MIN as int)
            + i32::MIN as int) by (nonlinear_arith)
            requires
                v.len() == v.drop_last().len() + 1,
        ;
        assert(v.len() * (i32::MAX as int) == v.drop_last().len() * (i32::MAX as int)
            + i32::MAX as int) by (nonlinear_arith)
            requires
                v.len() == v.drop_last().len() + 1,
        ;
    } else {
        assert(v.len() * (i32::MIN as int) == 0 && v.len() * (i32::MAX as int) == 0)
            by (nonlinear_arith)
            requires
                v.len() == 0,
        ;
    }
}

/// The sum of `len` squares lies between 0 and `len * 2^62`.
pub proof fn lemma_sum_sq_bounds(v: Seq<i32>)
    ensures
        0 <= sum_sq(v) <= v.len() * 0x4000_0000_0000_0000,
    decreases v.len(),
{
    if v.len() > 0 {
        lemma_sum_sq_bounds(v.drop_last());
        let x = v.last() as int;
        assert(0 <= x * x <= 0x4000_0000_0000_0000) by (nonlinear_arith)
            requires
                -0x8000_0000 <= x <= 0x7fff_ffff,
        ;
        assert(v.len() * 0x4000_0000_0000_0000 == v.drop_last().len() * 0x4000_0000_0000_0000
            + 0x4000_0000_0000_0000) by (nonlinear_arith)
            requires
                v.len() == v.drop_last().len() + 1,
        ;
    } else {
        assert(v.len() * 0x4000_0000_0000_0000 == 0) by (nonlinear_arith)
            requires
                v.len() == 0,
        ;
    }
}

/// Squared distances add up to something that is not negative.
pub proof fn lemma_scaled_sq_dev_nonneg(v: Seq<i32>, n: int, s: int)
    ensures
        scaled_sq_dev(v, n, s) >= 0,
    decreases v.len(),
{
    if v.len() > 0 {
        lemma_scaled_sq_dev_nonneg(v.drop_last(), n, s);
        let d = n * v.last() - s;
        assert(d * d >= 0) by (nonlinear_arith);
    }
}

/// Expanding the squares: `sum (n x - s)^2 = n^2 sum x^2 - 2 n s sum x + len s^2`.
pub proof fn lemma_scaled_sq_dev_expand(v: Seq<i32>, n: int, s: int)
    ensures
        scaled_sq_dev(v, n, s) == n * n * sum_sq(v) - 2 * n * s * sum(v) + v.len() * s * s,
    decreases v.len(),
{
    if v.len() > 0 {
        let w = v.drop_last();
        let x = v.last() as int;
        lemma_scaled_sq_dev_expand(w, n, s);
        let q = sum_sq(w);
        let t = sum(w);
        let k = w.len() as int;
        assert((n * n * q - 2 * n * s * t + k * s * s) + (n * x - s) * (n * x - s) == n * n * (q
            + x * x) - 2 * n * s * (t + x) + (k + 1) * s * s) by (nonlinear_arith);
    } else {
        assert(n * n * 0 - 2 * n * s * 0 + 0 * s * s == 0) by (nonlinear_arith);
    }
}

/// With `n` the length and `s` the sum, the squared distances collapse to
/// `n * (n * sum x^2 - s^2)`; hence `n * sum x^2 >= s^2`.
pub proof fn lemma_scaled_sq_dev_closed(v: Seq<i32>)
    ensures
        scaled_sq_dev(v, v.len() as int, sum(v)) == v.len() * (v.len() * sum_sq(v) - sum(v) * sum(
            v,
        )),
        v.len() * sum_sq(v) - sum(v) * sum(v) >= 0,
{
    let n = v.len() as int;
    let s = sum(v);
    let q = sum_sq(v);
    lemma_scaled_sq_dev_expand(v, n, s);
    lemma_scaled_sq_dev_nonneg(v, n, s);
    assert(n * n * q - 2 * n * s * s + n * s * s == n * (n * q - s * s)) by (nonlinear_arith);
    if n > 0 {
        assert(n * q - s * s >= 0) by (nonlinear_arith)
            requires
                n > 0,
                n * (n * q - s * s) >= 0,
        ;
    } else {
        assert(s == 0 && q == 0);
        assert(n * q - s * s >= 0) by (nonlinear_arith)
            requires
                s == 0,
                q == 0,
        ;
    }
}

/// For two entries or more, the variance is `(n * sum x^2 - s^2) / (n * (n - 1))`,
/// a quotient of two numbers that are not negative.
pub proof fn lemma_variance_formula(v: Seq<i32>)
    requires
        v.len() >= 2,
    ensures
        sample_variance(v) == (v.len() * sum_sq(v) - sum(v) * sum(v)) / (v.len() * (v.len() - 1)),
        v.len() * sum_sq(v) - sum(v) * sum(v) >= 0,
        v.len() * (v.len() - 1) > 0,
{
    let n = v.len() as int;
    let b = n * sum_sq(v) - sum(v) * sum(v);
    let d = n * (n - 1);
    lemma_scaled_sq_dev_closed(v);
    assert(d > 0) by (nonlinear_arith)
        requires
            d == n * (n - 1),
            n >= 2,
    ;
    assert(n * n * (n - 1) == n * d) by (nonlinear_arith)
        requires
            d == n * (n - 1),
    ;
    assert(n * b == b * n) by (nonlinear_arith);
    lemma_div_by_multiple(b, n);
    lemma_div_denominator(n * b, n, d);
    assert((n * b) / (n * d) == b / d);
}

/// The variance is never negative, and it is 0 below two entries.
pub proof fn lemma_variance_nonneg(v: Seq<i32>)
    ensures
        sample_variance(v) >= 0,
        v.len() < 2 ==> sample_variance(v) == 0,
{
    if v.len() >= 2 {
        lemma_variance_formula(v);
        let n = v.len() as int;
        let b = n * sum_sq(v) - sum(v) * sum(v);
        let d = n * (n - 1);
        lemma_fundamental_div_mod(b, d);
        assert(b / d >= 0) by (nonlinear_arith)
            requires
                b >= 0,
                d > 0,
        ;
    }
}

/// The variance of `i32` entries is at most `2^63`.
pub proof fn lemma_variance_bound(v: Seq<i32>)
    ensures
        sample_variance(v) <= 0x8000_0000_0000_0000,
{
    if v.len() >= 2 {
        lemma_variance_formula(v);
        lemma_sum_sq_bounds(v);
        let n = v.len() as int;
        let q = sum_sq(v);
        let s = sum(v);
        let b = n * q - s * s;
        let d = n * (n - 1);
        assert(b <= 0x8000_0000_0000_0000 * d) by (nonlinear_arith)
            requires
                n >= 2,
                0 <= q <= n * 0x4000_0000_0000_0000,
                b == n * q - s * s,
                d == n * (n - 1),
        ;
        assert(b / d <= 0x8000_0000_0000_0000) by (nonlinear_arith)
            requires
                d > 0,
                b <= 0x8000_0000_0000_0000 * d,
        ;
    }
}

/// The mean of `i32` entries is an `i32`.
pub proof fn lemma_mean_is_i32(v: Seq<i32>)
    ensures
        i32::MIN <= mean(v) <= i32::MAX,
{
    if v.len() > 0 {
        lemma_sum_bounds(v);
        let n = v.len() as int;
        let s = sum(v);
        assert(i32::MIN <= s / n <= i32::MAX) by (nonlinear_arith)
            requires
                n > 0,
                n * (i32::MIN as int) <= s <= n * (i32::MAX as int),
        ;
    }
}

/// Rounding the mean down moves no entry across it: a whole number is at most the
/// rounded mean exactly when it is at most the exact mean, `sum / len`.
pub proof fn lemma_rounded_mean_parts_alike(v: Seq<i32>, x: int)
    requires
        v.len() > 0,
    ensures
        x <= mean(v) <==> x * v.len() <= sum(v),
{
    let n = v.len() as int;
    let s = sum(v);
    lemma_fundamental_div_mod(s, n);
    assert(x <= s / n <==> x * n <= s) by (nonlinear_arith)
        requires
            n > 0,
            s == n * (s / n) + s % n,
            0 <= s % n < n,
    ;
}

/// `num / den` rounded down, for a positive `den`.
pub fn floor_div(num: i128, den: usize) -> (q: i128)
    requires
        den > 0,
        -0x4000_0000_0000_0000_0000_0000_0000_0000 <= num <= 0x4000_0000_0000_0000_0000_0000_0000_0000,
    ensures
        q == (num as int) / (den as int),
{
    let d: i128 = den as i128;
    if num >= 0 {
        num / d
    } else {
        let m: i128 = -num;
        let k: i128 = (m + d - 1) / d;
        proof {
            let t = (m + d - 1) % (d as int);
            lemma_fundamental_div_mod(m + d - 1, d as int);
            assert(d * k == k * d) by (nonlinear_arith);
            assert(-m == (-k) * d + (d - 1 - t)) by (nonlinear_arith)
                requires
                    m + d - 1 == d * k + t,
            ;
            lemma_fundamental_div_mod_converse(num as int, d as int, -k, d - 1 - t);
        }
        -k
    }
}

/// The sum of the entries and the sum of their squares.
pub fn totals(v: &Vector) -> (t: (i128, i128))
    ensures
        t.0 == sum(v@),
        t.1 == sum_sq(v@),
{
    let n: usize = v.len();
    let mut s: i128 = 0;
    let mut q: i128 = 0;
    let mut i: usize = 0;
    while i < n
        invariant
            n == v@.len(),
            i <= n,
            s == sum(v@.take(i as int)),
            q == sum_sq(v@.take(i as int)),
        decreases n - i,
    {
        let x: i128 = v.at(i) as i128;
        proof {
            lemma_sum_bounds(v@.take(i as int));
            lemma_sum_sq_bounds(v@.take(i as int));
            assert(v@.take(i + 1).drop_last() =~= v@.take(i as int));
            assert(0 <= x * x <= 0x4000_0000_0000_0000) by (nonlinear_arith)
                requires
                    -0x8000_0000 <= x <= 0x7fff_ffff,
            ;
        }
        s = s + x;
        q = q + x * x;
        i += 1;
    }
    proof {
        assert(v@.take(n as int) =~= v@);
    }
    (s, q)
}

/// The arithmetic mean of the entries, rounded down; 0 for an empty vector.
pub fn mean_of(v: &Vector) -> (m: i32)
    ensures
        m == mean(v@),
{
    let n: usize = v.len();
    if n == 0 {
        return 0;
    }
    let (s, _) = totals(v);
    proof {
        lemma_sum_bounds(v@);
        lemma_mean_is_i32(v@);
    }
    let m: i128 = floor_div(s, n);
    m as i32
}

/// Statistics that a vector of observations offers.
pub trait ArrayExt {
    /// The observations, first to last.
    spec fn observations(&self) -> Seq<i32>;

    /// The unbiased sample variance, rounded down; 0 below two observations.
    fn sample_var(&self) -> (var: u64)
        requires
            self.observations().len() <= MAX_ROWS,
        ensures
            var == sample_variance(self.observations()),
    ;
}

impl ArrayExt for Vector {
    open spec fn observations(&self) -> Seq<i32> {
        self@
    }

    fn sample_var(&self) -> (var: u64) {
        let len: usize = self.len();
        if len < 2 {
            return 0;
        }
        let (s, q) = totals(self);
        let n: i128 = len as i128;
        proof {
            lemma_sum_bounds(self@);
            lemma_sum_sq_bounds(self@);
            lemma_variance_formula(self@);
            lemma_variance_nonneg(self@);
            lemma_variance_bound(self@);
            assert(0 <= n * q <= 0x4000_0000_0000_0000_0000_0000_0000_0000) by (nonlinear_arith)
                requires
                    0 <= n <= 0xFFFF_FFFF,
                    0 <= q <= n * 0x4000_0000_0000_0000,
            ;
            assert(0 <= s * s <= 0x4000_0000_0000_0000_0000_0000_0000_0000) by (nonlinear_arith)
                requires
                    0 <= n <= 0xFFFF_FFFF,
                    n * (-0x8000_0000) <= s <= n * 0x7fff_ffff,
            ;
            assert(0 < n * (n - 1) <= 0xFFFF_FFFF_FFFF_FFFF) by (nonlinear_arith)
                requires
                    2 <= n <= 0xFFFF_FFFF,
            ;
        }
        let b: i128 = n * q - s * s;
        let d: i128 = n * (n - 1);
        (b / d) as u64
    }
}

} // verus!
