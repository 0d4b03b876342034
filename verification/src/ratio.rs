//! Exact similarity scores.
use vstd::prelude::*;

verus! {

/// An exact non-negative score `numerator / denominator`.
///
/// Every score this library computes has a positive denominator.
#[derive(Debug, Clone, Copy, PartialEq, Eq, Structural)]
pub struct Ratio {
    pub numerator: usize,
    pub denominator: usize,
}

/// An exact non-negative score `numerator / denominator` whose parts may
/// need more than a `usize`: the mean of many scores of one denominator.
#[derive(Debug, Clone, Copy, PartialEq, Eq, Structural)]
pub struct WideRatio {
    pub numerator: u128,
    pub denominator: u128,
}

impl Ratio {
    /// `self >= other` as rational numbers (for positive denominators).
    pub open spec fn spec_at_least(self, other: Ratio) -> bool {
        self.numerator * other.denominator >= other.numerator * self.denominator
    }

    /// `self` and `other` denote the same rational number (for positive denominators).
    pub open spec fn spec_same_value(self, other: Ratio) -> bool {
        self.numerator * other.denominator == other.numerator * self.denominator
    }

    /// The score zero.
    pub fn zero() -> (r: Ratio)
        ensures
            r == (Ratio { numerator: 0, denominator: 1 }),
    {
        Ratio { numerator: 0, denominator: 1 }
    }

    /// The score one.
    pub fn one() -> (r: Ratio)
        ensures
            r == (Ratio { numerator: 1, denominator: 1 }),
    {
        Ratio { numerator: 1, denominator: 1 }
    }

    /// Whether `self >= other` as rational numbers.
    pub fn at_least(&self, other: &Ratio) -> (ge: bool)
        ensures
            ge == self.spec_at_least(*other),
    {
        proof {
            lemma_product_fits(self.numerator, other.denominator);
            lemma_product_fits(other.numerator, self.denominator);
        }
        let lhs: u128 = (self.numerator as u128) * (other.denominator as u128);
        let rhs: u128 = (other.numerator as u128) * (self.denominator as u128);
        lhs >= rhs
    }
}

proof fn lemma_product_fits(a: usize, b: usize)
    ensures
        (a as int) * (b as int) <= u128::MAX,
{
    assert((a as int) * (b as int) <= u128::MAX) by (nonlinear_arith)
        requires
            a as int <= u64::MAX as int,
            b as int <= u64::MAX as int,
    ;
}

} // verus!

verus! {

/// Comparing scores with positive denominators is a total preorder.
pub proof fn lemma_at_least_total_preorder(a: Ratio, b: Ratio, c: Ratio)
    requires
        a.denominator > 0,
        b.denominator > 0,
        c.denominator > 0,
    ensures
        a.spec_at_least(a),
        a.spec_at_least(b) || b.spec_at_least(a),
        a.spec_at_least(b) && b.spec_at_least(c) ==> a.spec_at_least(c),
{
    let (an, ad, bn, bd, cn, cd) = (
        a.numerator as int,
        a.denominator as int,
        b.numerator as int,
        b.denominator as int,
        c.numerator as int,
        c.denominator as int,
    );
    if a.spec_at_least(b) && b.spec_at_least(c) {
        assert(an * cd >= cn * ad) by (nonlinear_arith)
            requires
                an * bd >= bn * ad,
                bn * cd >= cn * bd,
                ad > 0,
                bd > 0,
                cd > 0,
                an >= 0,
                bn >= 0,
                cn >= 0,
        ;
    }
}

} // verus!
