//! Rays: an origin, a direction, and the point a parameter lands on.

use vstd::prelude::*;
use crate::fixed::{SCALE, fits_i64, div_trunc_i128, lemma_div_trunc_bound};
use crate::vec3::{Vec3, Point3, smul, lemma_i64_product_in_i128};

verus! {

/// A half-line through `origin` along `direction`, parametrized over the
/// whole line; intersection logic restricts the parameter by an `Interval`.
#[derive(Clone, Copy, PartialEq, Eq, Structural, Debug)]
pub struct Ray {
    pub origin: Point3,
    pub direction: Vec3,
}

/// The exact fixed-point coordinates of `origin + direction * t`.
pub open spec fn at_of(r: Ray, t: int) -> (int, int, int) {
    (
        r.origin.x + smul(t, r.direction.x as int),
        r.origin.y + smul(t, r.direction.y as int),
        r.origin.z + smul(t, r.direction.z as int),
    )
}

impl Ray {
    /// Coordinates in range and a direction to move along.
    pub open spec fn wf(self) -> bool {
        &&& self.origin.bounded()
        &&& self.direction.bounded()
        &&& !self.direction.is_zero()
    }

    /// The point the parameter `t` lands on.
    pub fn at(&self, t: i64) -> (p: Point3)
        requires
            self.origin.bounded(),
            self.direction.bounded(),
            fits_i64(at_of(*self, t as int).0),
            fits_i64(at_of(*self, t as int).1),
            fits_i64(at_of(*self, t as int).2),
        ensures
            p.x == at_of(*self, t as int).0,
            p.y == at_of(*self, t as int).1,
            p.z == at_of(*self, t as int).2,
    {
        Vec3 {
            x: Self::at_comp(self.origin.x, self.direction.x, t),
            y: Self::at_comp(self.origin.y, self.direction.y, t),
            z: Self::at_comp(self.origin.z, self.direction.z, t),
        }
    }

    fn at_comp(o: i64, d: i64, t: i64) -> (r: i64)
        requires
            fits_i64(o + smul(t as int, d as int)),
        ensures
            r == o + smul(t as int, d as int),
    {
        proof {
            lemma_i64_product_in_i128(t as int, d as int);
        }
        let step: i128 = div_trunc_i128((t as i128) * (d as i128), SCALE as i128);
        proof {
            lemma_div_trunc_bound(
                (t as int) * (d as int),
                SCALE as int,
                0x8000_0000_0000_0000_0000_0000_0000,
            );
        }
        ((o as i128) + step) as i64
    }
}

} // verus!
