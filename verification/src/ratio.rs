//! Exact rational thresholds.
//!
//! Ratios of event counts (null bytes per token, successes per use, corpus
//! fractions) are compared exactly by cross-multiplication instead of going
//! through inexact division.

use vstd::prelude::*;

verus! {

/// A nonnegative rational `num / den` with a positive denominator.
#[derive(Clone, Copy, Debug, PartialEq, Eq, Structural)]
pub struct Ratio {
    pub num: u64,
    pub den: u64,
}

/// `a / b < c / d`, for positive denominators `b` and `d`.
pub open spec fn frac_lt_frac(a: int, b: int, c: int, d: int) -> bool {
    a * d < c * b
}

/// Exact comparison `a / b < c / d` by cross-multiplication.
pub fn frac_lt_frac_exec(a: u64, b: u64, c: u64, d: u64) -> (r: bool)
    ensures
        r == frac_lt_frac(a as int, b as int, c as int, d as int),
{
    proof {
        assert((a as int) * (d as int) <= 0xffff_ffff_ffff_ffff * 0xffff_ffff_ffff_ffff)
            by (nonlinear_arith)
            requires a <= 0xffff_ffff_ffff_ffff && d <= 0xffff_ffff_ffff_ffff;
        assert((c as int) * (b as int) <= 0xffff_ffff_ffff_ffff * 0xffff_ffff_ffff_ffff)
            by (nonlinear_arith)
            requires c <= 0xffff_ffff_ffff_ffff && b <= 0xffff_ffff_ffff_ffff;
    }
    let lhs: u128 = (a as u128) * (d as u128);
    let rhs: u128 = (c as u128) * (b as u128);
    lhs < rhs
}

/// Strict transitivity of the fraction order, for positive denominators.
pub proof fn lemma_frac_lt_lt_trans(a1: int, b1: int, a2: int, b2: int, a3: int, b3: int)
    requires
        b1 > 0,
        b2 > 0,
        b3 > 0,
        frac_lt_frac(a1, b1, a2, b2),
        frac_lt_frac(a2, b2, a3, b3),
    ensures
        frac_lt_frac(a1, b1, a3, b3),
{
    assert(a1 * b3 < a3 * b1) by (nonlinear_arith)
        requires
            b1 > 0,
            b2 > 0,
            b3 > 0,
            a1 * b2 < a2 * b1,
            a2 * b3 < a3 * b2;
}

/// A fraction strictly below a second one is strictly below everything the
/// second is at most equal to, for positive denominators.
pub proof fn lemma_frac_lt_le_trans(a1: int, b1: int, a2: int, b2: int, a3: int, b3: int)
    requires
        b1 > 0,
        b2 > 0,
        b3 > 0,
        frac_lt_frac(a1, b1, a2, b2),
        !frac_lt_frac(a3, b3, a2, b2),
    ensures
        frac_lt_frac(a1, b1, a3, b3),
{
    assert(a1 * b3 < a3 * b1) by (nonlinear_arith)
        requires
            b1 > 0,
            b2 > 0,
            b3 > 0,
            a1 * b2 < a2 * b1,
            a3 * b2 >= a2 * b3;
}

impl Ratio {
    /// The denominator is positive, so the ratio denotes a rational number.
    pub open spec fn wf(self) -> bool {
        self.den >= 1
    }

    /// The ratio is at most one.
    pub open spec fn is_unit(self) -> bool {
        self.num <= self.den
    }

    /// `a / b <= self`, for `b > 0`.
    pub open spec fn frac_le(self, a: int, b: int) -> bool {
        a * self.den <= self.num * b
    }

    /// `a / b >= self`, for `b > 0`.
    pub open spec fn frac_ge(self, a: int, b: int) -> bool {
        a * self.den >= self.num * b
    }

    /// `⌈n · self⌉`.
    pub open spec fn ceil_mul_spec(self, n: int) -> int
        recommends
            self.wf(),
    {
        (n * self.num + self.den - 1) / (self.den as int)
    }

    pub fn new(num: u64, den: u64) -> (r: Ratio)
        requires
            den >= 1,
        ensures
            r == (Ratio { num, den }),
            r.wf(),
    {
        Ratio { num, den }
    }

    /// Whether the fraction `a / b` is at most this ratio.
    pub fn frac_le_exec(&self, a: usize, b: usize) -> (r: bool)
        ensures
            r == self.frac_le(a as int, b as int),
    {
        proof {
            assert((a as int) * (self.den as int)
                <= 0xffff_ffff_ffff_ffff * 0xffff_ffff_ffff_ffff)
                by (nonlinear_arith)
                requires a <= 0xffff_ffff_ffff_ffff && self.den <= 0xffff_ffff_ffff_ffff;
            assert((self.num as int) * (b as int)
                <= 0xffff_ffff_ffff_ffff * 0xffff_ffff_ffff_ffff)
                by (nonlinear_arith)
                requires self.num <= 0xffff_ffff_ffff_ffff && b <= 0xffff_ffff_ffff_ffff;
        }
        let lhs: u128 = (a as u128) * (self.den as u128);
        let rhs: u128 = (self.num as u128) * (b as u128);
        lhs <= rhs
    }

    /// Whether the fraction `a / b` is at least this ratio.
    pub fn frac_ge_exec(&self, a: usize, b: usize) -> (r: bool)
        ensures
            r == self.frac_ge(a as int, b as int),
    {
        proof {
            assert((a as int) * (self.den as int)
                <= 0xffff_ffff_ffff_ffff * 0xffff_ffff_ffff_ffff)
                by (nonlinear_arith)
                requires a <= 0xffff_ffff_ffff_ffff && self.den <= 0xffff_ffff_ffff_ffff;
            assert((self.num as int) * (b as int)
                <= 0xffff_ffff_ffff_ffff * 0xffff_ffff_ffff_ffff)
                by (nonlinear_arith)
                requires self.num <= 0xffff_ffff_ffff_ffff && b <= 0xffff_ffff_ffff_ffff;
        }
        let lhs: u128 = (a as u128) * (self.den as u128);
        let rhs: u128 = (self.num as u128) * (b as u128);
        lhs >= rhs
    }

    /// `⌈n · self⌉`, for a ratio at most one (so the result is at most `n`).
    pub fn ceil_mul(&self, n: usize) -> (r: usize)
        requires
            self.wf(),
            self.is_unit(),
        ensures
            r == self.ceil_mul_spec(n as int),
            r <= n,
    {
        proof {
            assert((n as int) * (self.num as int)
                <= 0xffff_ffff_ffff_ffff * 0xffff_ffff_ffff_ffff)
                by (nonlinear_arith)
                requires n <= 0xffff_ffff_ffff_ffff && self.num <= 0xffff_ffff_ffff_ffff;
        }
        let prod: u128 = (n as u128) * (self.num as u128);
        let den: u128 = self.den as u128;
        let res: u128 = (prod + (den - 1)) / den;
        proof {
            assert(((n as int) * (self.num as int) + (self.den as int) - 1)
                / (self.den as int) <= n as int)
                by (nonlinear_arith)
                requires
                    self.num <= self.den,
                    self.den >= 1,
                    n >= 0;
        }
        res as usize
    }
}

} // verus!
