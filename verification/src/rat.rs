//! Exact rational ray distances: a numerator and a positive denominator.
//!
//! Traversal and intersection compare distances by cross-multiplying in
//! 128-bit arithmetic, so no rounding ever reorders two hits.

use vstd::prelude::*;

verus! {

/// A ray distance `num / den`, exact. Well-formed when `den > 0`.
#[derive(Clone, Copy, Debug)]
pub struct Rat {
    pub num: i64,
    pub den: i64,
}

proof fn lemma_i64_prod_fits(a: i128, b: i128)
    requires
        i64::MIN <= a <= i64::MAX,
        i64::MIN <= b <= i64::MAX,
    ensures
        i128::MIN <= a * b <= i128::MAX,
{
    assert(i128::MIN <= a * b <= i128::MAX) by (nonlinear_arith)
        requires
            -0x8000000000000000 <= a <= 0x7fffffffffffffff,
            -0x8000000000000000 <= b <= 0x7fffffffffffffff,
    ;
}

impl Rat {
    pub open spec fn wf(self) -> bool {
        self.den > 0
    }

    /// `a <= b` as rationals, read off the cross products.
    pub open spec fn spec_le(self, o: Rat) -> bool {
        self.num * o.den <= o.num * self.den
    }

    pub open spec fn spec_lt(self, o: Rat) -> bool {
        self.num * o.den < o.num * self.den
    }

    /// The distance `n`, exactly.
    pub fn from_int(n: i64) -> (r: Rat)
        ensures
            r.wf(),
            r.num == n,
            r.den == 1,
    {
        Rat { num: n, den: 1 }
    }

    pub open spec fn spec_nonneg(self) -> bool {
        self.num >= 0
    }

    pub fn le(self, o: Rat) -> (r: bool)
        requires
            self.wf(),
            o.wf(),
        ensures
            r == self.spec_le(o),
    {
        let a = self.num as i128;
        let b = o.den as i128;
        let c = o.num as i128;
        let d = self.den as i128;
        proof {
            lemma_i64_prod_fits(a, b);
            lemma_i64_prod_fits(c, d);
        }
        a * b <= c * d
    }

    pub fn lt(self, o: Rat) -> (r: bool)
        requires
            self.wf(),
            o.wf(),
        ensures
            r == self.spec_lt(o),
    {
        let a = self.num as i128;
        let b = o.den as i128;
        let c = o.num as i128;
        let d = self.den as i128;
        proof {
            lemma_i64_prod_fits(a, b);
            lemma_i64_prod_fits(c, d);
        }
        a * b < c * d
    }

    pub fn nonneg(self) -> (r: bool)
        ensures
            r == self.spec_nonneg(),
    {
        self.num >= 0
    }
}

/// The rational order is transitive: comparisons by cross product chain.
pub proof fn lemma_rat_le_trans(a: Rat, b: Rat, c: Rat)
    requires
        a.wf(),
        b.wf(),
        c.wf(),
        a.spec_le(b),
        b.spec_le(c),
    ensures
        a.spec_le(c),
{
    assert(a.num * c.den <= c.num * a.den) by (nonlinear_arith)
        requires
            a.den > 0,
            b.den > 0,
            c.den > 0,
            a.num * b.den <= b.num * a.den,
            b.num * c.den <= c.num * b.den,
    ;
}

} // verus!
