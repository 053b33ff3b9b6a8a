//! Fitness as an exact fraction, with the total order the engine ranks by.
use vstd::prelude::*;

verus! {

/// The fitness of an individual: the fraction `score / scale`, higher is
/// better. A `scale` of zero is read as one.
#[derive(Clone, Copy, Debug, PartialEq, Eq, Structural)]
pub struct Fitness {
    pub score: u64,
    pub scale: u64,
}

impl Fitness {
    /// The denominator that the order uses: `scale`, or one where it is zero.
    pub open spec fn denominator(self) -> int {
        if self.scale == 0 {
            1
        } else {
            self.scale as int
        }
    }

    /// `self` is at most `other`, as fractions.
    pub open spec fn le(self, other: Fitness) -> bool {
        self.score * other.denominator() <= other.score * self.denominator()
    }

    /// `self` is strictly below `other`, as fractions.
    pub open spec fn lt(self, other: Fitness) -> bool {
        !other.le(self)
    }

    /// `self` lies within one thousandth of the full fitness, one.
    pub open spec fn near_full(self) -> bool {
        let gap = if self.score >= self.denominator() {
            self.score - self.denominator()
        } else {
            self.denominator() - self.score
        };
        1000 * gap < self.denominator()
    }

    /// Whether `self` lies within one thousandth of the full fitness, one:
    /// the condition on which a run has converged.
    pub fn is_near_full(&self) -> (r: bool)
        ensures
            r == self.near_full(),
    {
        let d: u128 = if self.scale == 0 { 1 } else { self.scale as u128 };
        let s: u128 = self.score as u128;
        let gap: u128 = if s >= d { s - d } else { d - s };
        1000 * gap < d
    }

    /// Compares two fitness values as fractions.
    pub fn is_at_most(&self, other: &Fitness) -> (r: bool)
        ensures
            r == self.le(*other),
    {
        let d_self: u128 = if self.scale == 0 { 1 } else { self.scale as u128 };
        let d_other: u128 = if other.scale == 0 { 1 } else { other.scale as u128 };
        proof {
            lemma_product_fits(self.score as int, d_other as int);
            lemma_product_fits(other.score as int, d_self as int);
        }
        (self.score as u128) * d_other <= (other.score as u128) * d_self
    }
}

proof fn lemma_product_fits(a: int, b: int)
    requires
        0 <= a <= u64::MAX,
        0 <= b <= u64::MAX,
    ensures
        0 <= a * b <= u128::MAX,
{
    assert(0 <= a * b <= u64::MAX * u64::MAX) by (nonlinear_arith)
        requires
            0 <= a <= u64::MAX,
            0 <= b <= u64::MAX,
    ;
}

/// The order on fitness values is reflexive.
pub proof fn lemma_le_reflexive(a: Fitness)
    ensures
        a.le(a),
{
}

/// Any two fitness values are comparable.
pub proof fn lemma_le_total(a: Fitness, b: Fitness)
    ensures
        a.le(b) || b.le(a),
{
}

/// The order on fitness values is transitive.
pub proof fn lemma_le_transitive(a: Fitness, b: Fitness, c: Fitness)
    requires
        a.le(b),
        b.le(c),
    ensures
        a.le(c),
{
    let (na, da) = (a.score as int, a.denominator());
    let (nb, db) = (b.score as int, b.denominator());
    let (nc, dc) = (c.score as int, c.denominator());
    assert(na * dc <= nc * da) by (nonlinear_arith)
        requires
            da > 0,
            db > 0,
            dc > 0,
            na >= 0,
            nb >= 0,
            nc >= 0,
            na * db <= nb * da,
            nb * dc <= nc * db,
    {
        assert(na * db * dc <= nb * da * dc);
        assert(nb * dc * da <= nc * db * da);
        assert(na * dc * db <= nc * da * db);
    }
}

} // verus!
