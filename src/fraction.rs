//! Exact non-negative fractions with 32-bit parts, reduced by num-rational.
use vstd::prelude::*;
use num_rational::Ratio;
use crate::error::CraftError;

verus! {

/// Whether `n / d` is in lowest terms.
pub open spec fn is_reduced(n: int, d: int) -> bool {
    forall|k: int| k > 1 ==> !((#[trigger] (n % k)) == 0 && d % k == 0)
}

/// Relies on `num_rational::Ratio::new`: the same fraction in lowest terms,
/// with a positive denominator; both parts are divided by their gcd.
#[verifier::external_body]
fn ratio_new(numer: u64, denom: u64) -> (r: (u64, u64))
    requires
        denom > 0,
    ensures
        r.1 > 0,
        r.0 * denom == numer * r.1,
        r.0 <= numer,
        r.1 <= denom,
        is_reduced(r.0 as int, r.1 as int),
{
    Ratio::new(numer, denom).into_raw()
}

/// Relies on `Mul` for `num_rational::Ratio`: the product in lowest terms.
/// It divides the numerators and denominators by common factors before
/// multiplying, so no part exceeds the plain products of the numerators and
/// of the denominators.
#[verifier::external_body]
fn ratio_mul(a: (u64, u64), b: (u64, u64)) -> (r: (u64, u64))
    requires
        a.1 > 0,
        b.1 > 0,
        a.0 * b.0 <= u64::MAX,
        a.1 * b.1 <= u64::MAX,
    ensures
        r.1 > 0,
        r.0 * (a.1 * b.1) == (a.0 * b.0) * r.1,
        r.0 <= a.0 * b.0,
        r.1 <= a.1 * b.1,
        is_reduced(r.0 as int, r.1 as int),
{
    (Ratio::new_raw(a.0, a.1) * Ratio::new_raw(b.0, b.1)).into_raw()
}

/// An exact ratio `numer / denom`.
#[derive(Debug, Clone, Copy, PartialEq, Eq, Structural)]
pub struct Fraction {
    pub numer: u32,
    pub denom: u32,
}

impl Fraction {
    /// A positive denominator, in lowest terms.
    pub open spec fn wf(&self) -> bool {
        self.denom > 0 && is_reduced(self.numer as int, self.denom as int)
    }

    /// Whether `(slot / count) * self` in lowest terms needs a part wider than 32 bits.
    pub open spec fn overflows(&self, slot: int, count: int) -> bool {
        exists|n: int, d: int|
            d > 0 && is_reduced(n, d) && n * (count * self.denom) == slot * self.numer * d && (n
                > u32::MAX || d > u32::MAX)
    }

    /// Whether this fraction equals `(slot / count) * parent`.
    pub open spec fn is_scaled(&self, slot: int, count: int, parent: Fraction) -> bool {
        self.numer * (count * parent.denom) == slot * parent.numer * self.denom
    }

    /// The ratio one.
    pub fn one() -> (r: Fraction)
        ensures
            r.numer == 1 && r.denom == 1,
            r.wf(),
    {
        assert forall|k: int| k > 1 implies !((#[trigger] (1int % k)) == 0 && 1int % k == 0) by {
            assert(1int % k == 1) by (nonlinear_arith)
                requires
                    k > 1,
            ;
        }
        Fraction { numer: 1, denom: 1 }
    }

    /// `(slot / count) * self`, exactly and in lowest terms; fails when that
    /// fraction in lowest terms does not fit 32-bit parts.
    pub fn scaled(&self, slot: u32, count: u32) -> (r: Result<Fraction, CraftError>)
        requires
            self.wf(),
            count > 0,
        ensures
            match r {
                Ok(f) => f.wf() && f.is_scaled(slot as int, count as int, *self),
                Err(e) => e is RatioOverflow && self.overflows(slot as int, count as int),
            },
            slot * self.numer <= u32::MAX && count * self.denom <= u32::MAX ==> r is Ok,
    {
        let q = ratio_new(slot as u64, count as u64);
        proof {
            assert(q.0 * self.numer <= u32::MAX * u32::MAX) by (nonlinear_arith)
                requires
                    q.0 <= slot,
                    self.numer <= u32::MAX,
                    slot <= u32::MAX,
            ;
            assert(q.1 * self.denom <= u32::MAX * u32::MAX) by (nonlinear_arith)
                requires
                    q.1 <= count,
                    self.denom <= u32::MAX,
                    count <= u32::MAX,
            ;
        }
        let p = ratio_mul(q, (self.numer as u64, self.denom as u64));
        proof {
            if slot * self.numer <= u32::MAX && count * self.denom <= u32::MAX {
                assert(q.0 * self.numer <= slot * self.numer) by (nonlinear_arith)
                    requires
                        q.0 <= slot,
                ;
                assert(q.1 * self.denom <= count * self.denom) by (nonlinear_arith)
                    requires
                        q.1 <= count,
                ;
            }
            let (a, b, c, d, n, m) = (
                slot as int,
                count as int,
                self.numer as int,
                self.denom as int,
                p.0 as int,
                p.1 as int,
            );
            let (x, y) = (q.0 as int, q.1 as int);
            assert(n * (b * d) == a * c * m) by (nonlinear_arith)
                requires
                    x * b == a * y,
                    n * (y * d) == (x * c) * m,
                    y > 0,
            ;
        }
        if p.0 > u32::MAX as u64 || p.1 > u32::MAX as u64 {
            return Err(CraftError::RatioOverflow);
        }
        Ok(Fraction { numer: p.0 as u32, denom: p.1 as u32 })
    }
}

} // verus!
