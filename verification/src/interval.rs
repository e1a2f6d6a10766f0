//! A closed numeric range used to bound acceptable intersection parameters.

use vstd::prelude::*;

verus! {

/// A range of fixed-point ray parameters.  `i64::MAX` and `i64::MIN` stand
/// in for plus and minus infinity.
#[derive(Clone, Copy, PartialEq, Eq, Structural, Debug)]
pub struct Interval {
    pub min: i64,
    pub max: i64,
}

impl Interval {
    /// Inclusive membership on both ends.
    pub open spec fn spec_contains(self, x: int) -> bool {
        self.min <= x <= self.max
    }

    /// Strict membership on both ends.
    pub open spec fn spec_surrounds(self, x: int) -> bool {
        self.min < x < self.max
    }

    pub fn new(min: i64, max: i64) -> (r: Self)
        ensures
            r == (Interval { min, max }),
    {
        Interval { min, max }
    }

    /// The unsatisfiable range: no value lies above the top and below the
    /// bottom of the representable line.
    pub fn empty() -> (r: Self)
        ensures
            r == (Interval { min: i64::MAX, max: i64::MIN }),
            forall|x: int| !r.spec_contains(x),
    {
        Interval { min: i64::MAX, max: i64::MIN }
    }

    /// The all-encompassing range.
    pub fn universe() -> (r: Self)
        ensures
            r == (Interval { min: i64::MIN, max: i64::MAX }),
            forall|x: i64| r.spec_contains(x as int),
    {
        Interval { min: i64::MIN, max: i64::MAX }
    }

    pub fn contains(&self, x: i64) -> (r: bool)
        ensures
            r == self.spec_contains(x as int),
    {
        self.min <= x && x <= self.max
    }

    pub fn surrounds(&self, x: i64) -> (r: bool)
        ensures
            r == self.spec_surrounds(x as int),
    {
        self.min < x && x < self.max
    }
}

/// Strict membership implies inclusive membership, and the converse fails
/// exactly at the endpoints: a value inside the closed range but not the
/// open one sits on the boundary.
pub proof fn lemma_surrounds_within_contains(iv: Interval, x: int)
    ensures
        iv.spec_surrounds(x) ==> iv.spec_contains(x),
        (iv.spec_contains(x) && !iv.spec_surrounds(x)) <==> (iv.spec_contains(x) && (x == iv.min
            || x == iv.max)),
{
}

} // verus!
