//! Exact non-negative ratios of integers, kept in lowest terms.

use vstd::prelude::*;

verus! {

/// `a` and `b` share no divisor above one.
pub open spec fn coprime(a: nat, b: nat) -> bool {
    forall|q: nat| q > 1 ==> !(#[trigger] (a % q) == 0 && b % q == 0)
}

/// A non-negative ratio `numer / denom`. Every ratio that this library builds is in lowest
/// terms with a positive denominator, so two ratios are equal exactly when their values are.
#[derive(Clone, Copy, Debug, PartialEq, Eq, Structural)]
pub struct Ratio {
    pub numer: u64,
    pub denom: u64,
}

/// Relies on `rational::Rational::new`, which divides both parts by their greatest common
/// divisor and keeps a positive denominator positive, and on `numerator` and `denominator`,
/// which read the two parts back.
#[verifier::external_body]
fn lowest_terms(n: u64, d: u64) -> (r: (u64, u64))
    requires
        d > 0,
    ensures
        r.1 > 0,
        r.0 <= n,
        r.1 <= d,
        r.0 * d == n * r.1,
        coprime(r.0 as nat, r.1 as nat),
{
    let q = rational::Rational::new(n, d);
    (q.numerator() as u64, q.denominator() as u64)
}

/// The product of two values below 2^64 is below 2^128.
proof fn lemma_product_fits(a: u128, b: u128)
    requires
        a <= u64::MAX,
        b <= u64::MAX,
    ensures
        a * b <= u128::MAX,
{
    assert(a * b <= u64::MAX * u64::MAX) by (nonlinear_arith)
        requires
            a <= u64::MAX,
            b <= u64::MAX,
    ;
}

impl Ratio {
    /// In lowest terms, with a positive denominator.
    pub open spec fn wf(self) -> bool {
        self.denom > 0 && coprime(self.numer as nat, self.denom as nat)
    }

    /// This ratio equals `n / d`.
    pub open spec fn has_value(self, n: int, d: int) -> bool {
        self.numer * d == n * self.denom
    }

    /// The ratio `n / d` in lowest terms.
    pub fn new(n: u64, d: u64) -> (r: Ratio)
        requires
            d > 0,
        ensures
            r.wf(),
            r.has_value(n as int, d as int),
            r.numer <= n,
            r.denom <= d,
    {
        let (numer, denom) = lowest_terms(n, d);
        Ratio { numer, denom }
    }

    /// Whether this ratio is smaller than `other`.
    pub fn less_than(&self, other: &Ratio) -> (r: bool)
        ensures
            r == (self.numer * other.denom < other.numer * self.denom),
    {
        let a = self.numer as u128;
        let b = other.denom as u128;
        let c = other.numer as u128;
        let d = self.denom as u128;
        proof {
            lemma_product_fits(a, b);
            lemma_product_fits(c, d);
        }
        a * b < c * d
    }
}

} // verus!
