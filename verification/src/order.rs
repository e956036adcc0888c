//! Comparing doubles.
use vstd::prelude::*;

use crate::double::{lemma_magnitude_increases, Double};

verus! {

/// Doubles are ordered by their keys as the numbers they stand for are ordered.
pub proof fn law_keys_order_numbers(a: Double, b: Double)
    ensures
        a.key() < b.key() <==> a.units() < b.units(),
        a.key() == b.key() <==> a.units() == b.units(),
{
    let (x, y) = (a.mag() as nat, b.mag() as nat);
    if x < y {
        lemma_magnitude_increases(x, y);
    }
    if y < x {
        lemma_magnitude_increases(y, x);
    }
    if 0 < x {
        lemma_magnitude_increases(0, x);
    }
    if 0 < y {
        lemma_magnitude_increases(0, y);
    }
}

impl Double {
    fn order_key(self) -> (r: i64)
        ensures
            r == self.key(),
    {
        if self.is_neg() { -(self.mag_bits() as i64) } else { self.mag_bits() as i64 }
    }

    /// Whether this is a number less than another.
    pub open spec fn spec_lt(self, o: Double) -> bool {
        !self.nan() && !o.nan() && self.key() < o.key()
    }

    /// Whether this is a number less than another.
    #[verifier::when_used_as_spec(spec_lt)]
    pub fn lt(self, o: Double) -> (r: bool)
        ensures
            r == self.spec_lt(o),
    {
        !self.is_nan() && !o.is_nan() && self.order_key() < o.order_key()
    }

    /// Whether this is a number at most as great as another.
    pub open spec fn spec_le(self, o: Double) -> bool {
        !self.nan() && !o.nan() && self.key() <= o.key()
    }

    /// Whether this is a number at most as great as another.
    #[verifier::when_used_as_spec(spec_le)]
    pub fn le(self, o: Double) -> (r: bool)
        ensures
            r == self.spec_le(o),
    {
        !self.is_nan() && !o.is_nan() && self.order_key() <= o.order_key()
    }

    /// Whether this and another are the same number; the two zeros are.
    pub open spec fn spec_same(self, o: Double) -> bool {
        !self.nan() && !o.nan() && self.key() == o.key()
    }

    /// Whether this and another are the same number; the two zeros are.
    #[verifier::when_used_as_spec(spec_same)]
    pub fn same(self, o: Double) -> (r: bool)
        ensures
            r == self.spec_same(o),
    {
        !self.is_nan() && !o.is_nan() && self.order_key() == o.order_key()
    }

    /// The smaller of two numbers; what is not a number gives way.
    pub open spec fn spec_min(self, o: Double) -> Double {
        if self.nan() || o.spec_lt(self) { o } else { self }
    }

    /// The smaller of two numbers; what is not a number gives way.
    #[verifier::when_used_as_spec(spec_min)]
    pub fn min(self, o: Double) -> (r: Double)
        ensures
            r == self.spec_min(o),
    {
        if self.is_nan() || o.lt(self) { o } else { self }
    }

    /// The greater of two numbers; what is not a number gives way.
    pub open spec fn spec_max(self, o: Double) -> Double {
        if self.nan() || self.spec_lt(o) { o } else { self }
    }

    /// The greater of two numbers; what is not a number gives way.
    #[verifier::when_used_as_spec(spec_max)]
    pub fn max(self, o: Double) -> (r: Double)
        ensures
            r == self.spec_max(o),
    {
        if self.is_nan() || self.lt(o) { o } else { self }
    }

    /// The nearest number between two bounds.
    pub open spec fn spec_clamp(self, lo: Double, hi: Double) -> Double {
        if self.spec_lt(lo) {
            lo
        } else if hi.spec_lt(self) {
            hi
        } else {
            self
        }
    }

    /// The nearest number between two bounds.
    #[verifier::when_used_as_spec(spec_clamp)]
    pub fn clamp(self, lo: Double, hi: Double) -> (r: Double)
        ensures
            r == self.spec_clamp(lo, hi),
    {
        if self.lt(lo) {
            lo
        } else if hi.lt(self) {
            hi
        } else {
            self
        }
    }

    /// The order in which sequences are sorted: by number, and what is not a
    /// number behind all that are.
    pub open spec fn rank(self) -> int {
        if self.nan() { u64::MAX as int } else { self.key() }
    }

    /// Whether this sorts no later than another.
    pub fn sorts_before(self, o: Double) -> (r: bool)
        ensures
            r == (self.rank() <= o.rank()),
    {
        o.is_nan() || (!self.is_nan() && self.order_key() <= o.order_key())
    }
}

} // verus!
