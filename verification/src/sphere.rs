//! Ray/sphere intersection by the quadratic formula, with the nearer
//! acceptable root preferred.

use vstd::prelude::*;
use crate::fixed::{
    SCALE, COORD_BOUND, fits_i64, div_trunc, sqrt_floor, div_trunc_i128, isqrt_u128,
    lemma_mul_bound, lemma_div_trunc_bound, lemma_div_trunc_abs_le,
};
use crate::vec3::{Vec3, Point3, dot3, sdiv};
use crate::ray::{Ray, at_of};
use crate::interval::Interval;
use crate::hittable::{HitRecord, HitData, hit_result_ok};

verus! {

/// A sphere, immutable once constructed.  A negative radius is not rejected:
/// it produces an inverted normal, as the division by the radius flips signs.
#[derive(Clone, Copy, PartialEq, Eq, Structural, Debug)]
pub struct Sphere {
    pub center: Point3,
    pub radius: i64,
}

impl Sphere {
    /// Center in range and a nonzero radius that is also in range.
    pub open spec fn wf(self) -> bool {
        &&& self.center.bounded()
        &&& self.radius != 0
        &&& -COORD_BOUND <= self.radius <= COORD_BOUND
    }
}

/// Quadratic coefficient `a`: the direction's exact squared norm.
pub open spec fn quad_a(r: Ray) -> int {
    dot3(r.direction, r.direction)
}

/// Quadratic coefficient `half_b`: the exact inner product of
/// `origin - center` with the direction.
pub open spec fn quad_half_b(s: Sphere, r: Ray) -> int {
    (r.origin.x - s.center.x) * r.direction.x + (r.origin.y - s.center.y) * r.direction.y + (
    r.origin.z - s.center.z) * r.direction.z
}

/// Quadratic coefficient `c`: the squared distance from origin to center,
/// less the squared radius.
pub open spec fn quad_c(s: Sphere, r: Ray) -> int {
    (r.origin.x - s.center.x) * (r.origin.x - s.center.x) + (r.origin.y - s.center.y) * (
    r.origin.y - s.center.y) + (r.origin.z - s.center.z) * (r.origin.z - s.center.z) - s.radius
        * s.radius
}

/// The discriminant `half_b^2 - a c`; negative exactly when the ray's line
/// misses the sphere.
pub open spec fn discriminant(s: Sphere, r: Ray) -> int {
    quad_half_b(s, r) * quad_half_b(s, r) - quad_a(r) * quad_c(s, r)
}

/// The floor square root of a nonnegative discriminant.
pub open spec fn sqrt_disc(s: Sphere, r: Ray) -> int {
    sqrt_floor(discriminant(s, r) as nat) as int
}

/// The nearer root of the quadratic, on the fixed-point parameter scale.
pub open spec fn root_near(s: Sphere, r: Ray) -> int {
    div_trunc((-quad_half_b(s, r) - sqrt_disc(s, r)) * (SCALE as int), quad_a(r))
}

/// The farther root.
pub open spec fn root_far(s: Sphere, r: Ray) -> int {
    div_trunc((-quad_half_b(s, r) + sqrt_disc(s, r)) * (SCALE as int), quad_a(r))
}

/// The root the intersection reports: the nearer one when it lies strictly
/// inside the range, else the farther one, else none.
pub open spec fn chosen_root(s: Sphere, r: Ray, ray_t: Interval) -> Option<int> {
    if discriminant(s, r) < 0 {
        None
    } else if ray_t.spec_surrounds(root_near(s, r)) {
        Some(root_near(s, r))
    } else if ray_t.spec_surrounds(root_far(s, r)) {
        Some(root_far(s, r))
    } else {
        None
    }
}

/// The outward normal at parameter `t`: the hit point less the center,
/// divided by the radius.
pub open spec fn outward_at(s: Sphere, r: Ray, t: int) -> (int, int, int) {
    let p = at_of(r, t);
    (
        sdiv(p.0 - s.center.x, s.radius as int),
        sdiv(p.1 - s.center.y, s.radius as int),
        sdiv(p.2 - s.center.z, s.radius as int),
    )
}

/// The full mathematical hit at parameter `t`: point, oriented normal,
/// parameter, and which side was struck.
pub open spec fn hit_data_at(s: Sphere, r: Ray, t: int) -> HitData {
    let p = at_of(r, t);
    let o = outward_at(s, r, t);
    let ff = o.0 * r.direction.x + o.1 * r.direction.y + o.2 * r.direction.z < 0;
    HitData {
        px: p.0,
        py: p.1,
        pz: p.2,
        nx: if ff { o.0 } else { -o.0 },
        ny: if ff { o.1 } else { -o.1 },
        nz: if ff { o.2 } else { -o.2 },
        t: t,
        front_face: ff,
    }
}

/// The hit's point and normal can be stored in machine integers.
pub open spec fn data_fits(h: HitData) -> bool {
    &&& fits_i64(h.px)
    &&& fits_i64(h.py)
    &&& fits_i64(h.pz)
    &&& fits_i64(h.nx)
    &&& fits_i64(h.ny)
    &&& fits_i64(h.nz)
}

/// What `Sphere::hit` returns: the hit at the chosen root, or none when no
/// root is acceptable or the hit's coordinates leave the machine range.
pub open spec fn sphere_hit_data(s: Sphere, r: Ray, ray_t: Interval) -> Option<HitData> {
    match chosen_root(s, r, ray_t) {
        None => None,
        Some(t) => {
            let h = hit_data_at(s, r, t);
            if data_fits(h) {
                Some(h)
            } else {
                None
            }
        },
    }
}

/// Numeric room for the quadratic: with coordinates under `COORD_BOUND`,
/// every coefficient stays far inside `i128`.
pub proof fn lemma_quad_in_range(s: Sphere, r: Ray)
    requires
        s.wf(),
        r.wf(),
    ensures
        1 <= quad_a(r) <= 3_000_000_000_000_000_000,
        -6_000_000_000_000_000_000 <= quad_half_b(s, r) <= 6_000_000_000_000_000_000,
        -13_000_000_000_000_000_000 <= quad_c(s, r) <= 13_000_000_000_000_000_000,
        discriminant(s, r) <= 75_000_000_000_000_000_000_000_000_000_000_000_000,
        -75_000_000_000_000_000_000_000_000_000_000_000_000 <= discriminant(s, r),
        discriminant(s, r) >= 0 ==> 0 <= sqrt_disc(s, r) <= 8_700_000_000_000_000_000,
{
    let dx = r.direction.x as int;
    let dy = r.direction.y as int;
    let dz = r.direction.z as int;
    let ox = r.origin.x - s.center.x;
    let oy = r.origin.y - s.center.y;
    let oz = r.origin.z - s.center.z;
    lemma_mul_bound(dx, dx, 1_000_000_000, 1_000_000_000);
    lemma_mul_bound(dy, dy, 1_000_000_000, 1_000_000_000);
    lemma_mul_bound(dz, dz, 1_000_000_000, 1_000_000_000);
    lemma_mul_bound(ox, dx, 2_000_000_000, 1_000_000_000);
    lemma_mul_bound(oy, dy, 2_000_000_000, 1_000_000_000);
    lemma_mul_bound(oz, dz, 2_000_000_000, 1_000_000_000);
    lemma_mul_bound(ox, ox, 2_000_000_000, 2_000_000_000);
    lemma_mul_bound(oy, oy, 2_000_000_000, 2_000_000_000);
    lemma_mul_bound(oz, oz, 2_000_000_000, 2_000_000_000);
    lemma_mul_bound(s.radius as int, s.radius as int, 1_000_000_000, 1_000_000_000);
    assert(quad_a(r) >= 1) by (nonlinear_arith)
        requires
            quad_a(r) == dx * dx + dy * dy + dz * dz,
            dx != 0 || dy != 0 || dz != 0;
    lemma_mul_bound(
        quad_half_b(s, r),
        quad_half_b(s, r),
        6_000_000_000_000_000_000,
        6_000_000_000_000_000_000,
    );
    lemma_mul_bound(
        quad_a(r),
        quad_c(s, r),
        3_000_000_000_000_000_000,
        13_000_000_000_000_000_000,
    );
    if discriminant(s, r) >= 0 {
        crate::fixed::lemma_sqrt_floor_bounds(discriminant(s, r) as nat);
        let u: nat = sqrt_floor(discriminant(s, r) as nat);
        assert(u <= 8_700_000_000_000_000_000) by (nonlinear_arith)
            requires
                u >= 0,
                u * u <= 75_000_000_000_000_000_000_000_000_000_000_000_000;
    }
}

/// With a nonnegative discriminant the nearer root really is no farther.
pub proof fn lemma_roots_ordered(s: Sphere, r: Ray)
    requires
        s.wf(),
        r.wf(),
        discriminant(s, r) >= 0,
    ensures
        root_near(s, r) <= root_far(s, r),
{
    lemma_quad_in_range(s, r);
    crate::fixed::lemma_sqrt_floor_bounds(discriminant(s, r) as nat);
    let hb = quad_half_b(s, r);
    let sq = sqrt_disc(s, r);
    crate::fixed::lemma_div_trunc_mono(
        (-hb - sq) * (SCALE as int),
        (-hb + sq) * (SCALE as int),
        quad_a(r),
    );
}

/// A ray that starts outside a sphere and points away from it — the origin
/// is strictly outside and the direction does not lead back toward the
/// center — never hits it for nonnegative parameters.
pub proof fn lemma_aimed_away_misses(s: Sphere, r: Ray, ray_t: Interval)
    requires
        s.wf(),
        r.wf(),
        ray_t.min >= 0,
        quad_half_b(s, r) >= 0,
        quad_c(s, r) > 0,
    ensures
        sphere_hit_data(s, r, ray_t) is None,
{
    lemma_quad_in_range(s, r);
    let a = quad_a(r);
    let hb = quad_half_b(s, r);
    let c = quad_c(s, r);
    if discriminant(s, r) >= 0 {
        crate::fixed::lemma_sqrt_floor_bounds(discriminant(s, r) as nat);
        let sq = sqrt_disc(s, r);
        assert(a * c >= 1) by (nonlinear_arith)
            requires a >= 1 && c >= 1;
        if sq >= hb {
            assert(sq * sq >= hb * hb) by (nonlinear_arith)
                requires sq >= hb >= 0;
        }
        assert(sq < hb);
        crate::fixed::lemma_div_trunc_exact(0, a);
        crate::fixed::lemma_div_trunc_mono((-hb - sq) * (SCALE as int), 0 * (SCALE as int), a);
        crate::fixed::lemma_div_trunc_mono((-hb + sq) * (SCALE as int), 0 * (SCALE as int), a);
        assert(root_near(s, r) <= 0);
        assert(root_far(s, r) <= 0);
    }
}

/// The stored normal is oriented against the incoming ray: whichever side
/// was struck, its inner product with the direction is never positive.
pub proof fn lemma_normal_opposes_ray(s: Sphere, r: Ray, ray_t: Interval)
    ensures
        sphere_hit_data(s, r, ray_t) matches Some(h) ==> h.nx * r.direction.x + h.ny
            * r.direction.y + h.nz * r.direction.z <= 0,
{
    if sphere_hit_data(s, r, ray_t) is Some {
        let t = chosen_root(s, r, ray_t)->0;
        let o = outward_at(s, r, t);
        assert((-o.0) * r.direction.x + (-o.1) * r.direction.y + (-o.2) * r.direction.z == -(o.0
            * r.direction.x + o.1 * r.direction.y + o.2 * r.direction.z)) by (nonlinear_arith);
    }
}

/// A ray that starts strictly outside a sphere and aims straight at its
/// center — the direction is exactly the vector from origin to center —
/// reports a hit with a strictly positive parameter when asked about all
/// nonnegative parameters.  The margin premise keeps the origin far enough
/// out that the fixed-point root does not truncate to zero; without it a
/// ray grazing the surface from within one scale step can round to a miss.
pub proof fn lemma_through_center_hits(s: Sphere, r: Ray, ray_t: Interval)
    requires
        s.wf(),
        r.wf(),
        r.direction.x == s.center.x - r.origin.x,
        r.direction.y == s.center.y - r.origin.y,
        r.direction.z == s.center.z - r.origin.z,
        quad_c(s, r) > 0,
        ray_t.min == 0,
        ray_t.max == i64::MAX,
        (quad_a(r) - sqrt_disc(s, r)) * (SCALE as int) >= quad_a(r),
    ensures
        sphere_hit_data(s, r, ray_t) matches Some(h) && h.t > 0,
{
    lemma_quad_in_range(s, r);
    let a = quad_a(r);
    let hb = quad_half_b(s, r);
    let c = quad_c(s, r);
    let rad2: int = s.radius * s.radius;
    assert(hb == -a && c == a - rad2) by (nonlinear_arith)
        requires
            hb == (r.origin.x - s.center.x) * r.direction.x + (r.origin.y - s.center.y)
                * r.direction.y + (r.origin.z - s.center.z) * r.direction.z,
            c == (r.origin.x - s.center.x) * (r.origin.x - s.center.x) + (r.origin.y - s.center.y)
                * (r.origin.y - s.center.y) + (r.origin.z - s.center.z) * (r.origin.z - s.center.z)
                - rad2,
            a == r.direction.x * r.direction.x + r.direction.y * r.direction.y + r.direction.z
                * r.direction.z,
            r.direction.x == s.center.x - r.origin.x,
            r.direction.y == s.center.y - r.origin.y,
            r.direction.z == s.center.z - r.origin.z,
            rad2 == s.radius * s.radius;
    assert(rad2 >= 1) by (nonlinear_arith)
        requires s.radius != 0 && rad2 == s.radius * s.radius;
    assert(discriminant(s, r) == a * rad2) by (nonlinear_arith)
        requires
            discriminant(s, r) == hb * hb - a * c,
            hb == -a,
            c == a - rad2;
    assert(a * rad2 >= 1 && a * rad2 < a * a) by (nonlinear_arith)
        requires 1 <= rad2 && rad2 < a;
    crate::fixed::lemma_sqrt_floor_bounds(discriminant(s, r) as nat);
    let sq = sqrt_disc(s, r);
    if sq >= a {
        assert(sq * sq >= a * a) by (nonlinear_arith)
            requires sq >= a >= 0;
    }
    assert(0 <= sq < a);
    // The nearer root lies strictly between zero and one scale unit.
    crate::fixed::lemma_div_trunc_exact(1, a);
    crate::fixed::lemma_div_trunc_exact(SCALE as int, a);
    crate::fixed::lemma_div_trunc_mono(1 * a, (a - sq) * (SCALE as int), a);
    assert((a - sq) * (SCALE as int) <= (SCALE as int) * a) by (nonlinear_arith)
        requires 0 <= sq && a >= 1;
    crate::fixed::lemma_div_trunc_mono((a - sq) * (SCALE as int), (SCALE as int) * a, a);
    let root = root_near(s, r);
    assert((-hb - sq) * (SCALE as int) == (a - sq) * (SCALE as int));
    assert(1 <= root <= SCALE);
    assert(ray_t.spec_surrounds(root));
    // The hit's coordinates stay far inside the machine range.
    let sx: int = SCALE as int;
    lemma_mul_bound(root, r.direction.x as int, sx, 1_000_000_000);
    lemma_mul_bound(root, r.direction.y as int, sx, 1_000_000_000);
    lemma_mul_bound(root, r.direction.z as int, sx, 1_000_000_000);
    lemma_div_trunc_bound(root * (r.direction.x as int), sx, 1_000_000_000);
    lemma_div_trunc_bound(root * (r.direction.y as int), sx, 1_000_000_000);
    lemma_div_trunc_bound(root * (r.direction.z as int), sx, 1_000_000_000);
    let p = at_of(r, root);
    lemma_div_trunc_abs_le((p.0 - s.center.x) * sx, s.radius as int);
    lemma_div_trunc_abs_le((p.1 - s.center.y) * sx, s.radius as int);
    lemma_div_trunc_abs_le((p.2 - s.center.z) * sx, s.radius as int);
    assert(data_fits(hit_data_at(s, r, root)));
}

/// Narrowing the top of the range filters the hit by its parameter and does
/// nothing else: the hit survives exactly when it beats the cut.
pub proof fn lemma_hit_narrowed(s: Sphere, r: Ray, ray_t: Interval, cut: i64)
    requires
        s.wf(),
        r.wf(),
        cut <= ray_t.max,
    ensures
        sphere_hit_data(s, r, Interval { min: ray_t.min, max: cut }) == (match sphere_hit_data(
            s,
            r,
            ray_t,
        ) {
            Some(h) => if h.t < cut {
                Some(h)
            } else {
                None::<HitData>
            },
            None => None::<HitData>,
        }),
{
    let narrowed = Interval { min: ray_t.min, max: cut };
    if discriminant(s, r) >= 0 {
        lemma_roots_ordered(s, r);
    }
}

impl Sphere {
    /// The nearest intersection of `ray` with this sphere whose parameter
    /// lies strictly inside `ray_t`, or none.  The returned record carries
    /// the exact fixed-point hit; a hit whose coordinates would leave the
    /// machine range is reported as none.
    pub fn hit(&self, ray: &Ray, ray_t: Interval) -> (res: Option<HitRecord>)
        requires
            self.wf(),
            ray.wf(),
        ensures
            hit_result_ok(res, sphere_hit_data(*self, *ray, ray_t)),
    {
        proof {
            lemma_quad_in_range(*self, *ray);
        }
        let ocx: i128 = ray.origin.x as i128 - self.center.x as i128;
        let ocy: i128 = ray.origin.y as i128 - self.center.y as i128;
        let ocz: i128 = ray.origin.z as i128 - self.center.z as i128;
        let dx: i128 = ray.direction.x as i128;
        let dy: i128 = ray.direction.y as i128;
        let dz: i128 = ray.direction.z as i128;
        proof {
            lemma_mul_bound(dx as int, dx as int, 1_000_000_000, 1_000_000_000);
            lemma_mul_bound(dy as int, dy as int, 1_000_000_000, 1_000_000_000);
            lemma_mul_bound(dz as int, dz as int, 1_000_000_000, 1_000_000_000);
            lemma_mul_bound(ocx as int, dx as int, 2_000_000_000, 1_000_000_000);
            lemma_mul_bound(ocy as int, dy as int, 2_000_000_000, 1_000_000_000);
            lemma_mul_bound(ocz as int, dz as int, 2_000_000_000, 1_000_000_000);
            lemma_mul_bound(ocx as int, ocx as int, 2_000_000_000, 2_000_000_000);
            lemma_mul_bound(ocy as int, ocy as int, 2_000_000_000, 2_000_000_000);
            lemma_mul_bound(ocz as int, ocz as int, 2_000_000_000, 2_000_000_000);
            lemma_mul_bound(
                self.radius as int,
                self.radius as int,
                1_000_000_000,
                1_000_000_000,
            );
        }
        let a: i128 = dx * dx + dy * dy + dz * dz;
        let half_b: i128 = ocx * dx + ocy * dy + ocz * dz;
        let rad: i128 = self.radius as i128;
        let c: i128 = ocx * ocx + ocy * ocy + ocz * ocz - rad * rad;
        proof {
            lemma_mul_bound(
                half_b as int,
                half_b as int,
                6_000_000_000_000_000_000,
                6_000_000_000_000_000_000,
            );
            lemma_mul_bound(
                a as int,
                c as int,
                3_000_000_000_000_000_000,
                13_000_000_000_000_000_000,
            );
        }
        let disc: i128 = half_b * half_b - a * c;
        if disc < 0 {
            return None;
        }
        let sq: i128 = isqrt_u128(disc as u128) as i128;
        proof {
            assert(half_b == quad_half_b(*self, *ray));
            assert(disc == discriminant(*self, *ray));
            assert(sq == sqrt_disc(*self, *ray));
            assert(0 <= sq <= 8_700_000_000_000_000_000);
            lemma_mul_bound(
                -(half_b as int) - (sq as int),
                SCALE as int,
                15_000_000_000_000_000_000,
                1_000_000,
            );
            lemma_mul_bound(
                -(half_b as int) + (sq as int),
                SCALE as int,
                15_000_000_000_000_000_000,
                1_000_000,
            );
        }
        let root: i128;
        let r1: i128 = div_trunc_i128((-half_b - sq) * (SCALE as i128), a);
        if (ray_t.min as i128) < r1 && r1 < (ray_t.max as i128) {
            root = r1;
        } else {
            let r2: i128 = div_trunc_i128((-half_b + sq) * (SCALE as i128), a);
            if (ray_t.min as i128) < r2 && r2 < (ray_t.max as i128) {
                root = r2;
            } else {
                return None;
            }
        }
        proof {
            assert(chosen_root(*self, *ray, ray_t) == Some(root as int));
        }
        let px: i128;
        let py: i128;
        let pz: i128;
        proof {
            lemma_mul_bound(root as int, dx as int, 0x8000_0000_0000_0000, 1_000_000_000);
            lemma_mul_bound(root as int, dy as int, 0x8000_0000_0000_0000, 1_000_000_000);
            lemma_mul_bound(root as int, dz as int, 0x8000_0000_0000_0000, 1_000_000_000);
            lemma_div_trunc_bound(
                (root as int) * (dx as int),
                SCALE as int,
                10_000_000_000_000_000_000_000,
            );
            lemma_div_trunc_bound(
                (root as int) * (dy as int),
                SCALE as int,
                10_000_000_000_000_000_000_000,
            );
            lemma_div_trunc_bound(
                (root as int) * (dz as int),
                SCALE as int,
                10_000_000_000_000_000_000_000,
            );
        }
        px = (ray.origin.x as i128) + div_trunc_i128(root * dx, SCALE as i128);
        py = (ray.origin.y as i128) + div_trunc_i128(root * dy, SCALE as i128);
        pz = (ray.origin.z as i128) + div_trunc_i128(root * dz, SCALE as i128);
        proof {
            lemma_div_trunc_abs_le((px as int - self.center.x) * (SCALE as int), rad as int);
            lemma_div_trunc_abs_le((py as int - self.center.y) * (SCALE as int), rad as int);
            lemma_div_trunc_abs_le((pz as int - self.center.z) * (SCALE as int), rad as int);
        }
        let nx: i128 = div_trunc_i128((px - self.center.x as i128) * (SCALE as i128), rad);
        let ny: i128 = div_trunc_i128((py - self.center.y as i128) * (SCALE as i128), rad);
        let nz: i128 = div_trunc_i128((pz - self.center.z as i128) * (SCALE as i128), rad);
        let lim: i128 = i64::MAX as i128;
        if px < -lim || px > lim || py < -lim || py > lim || pz < -lim || pz > lim || nx < -lim
            || nx > lim || ny < -lim || ny > lim || nz < -lim || nz > lim {
            return None;
        }
        let p = Vec3 { x: px as i64, y: py as i64, z: pz as i64 };
        let outward = Vec3 { x: nx as i64, y: ny as i64, z: nz as i64 };
        let mut rec = HitRecord { p, normal: outward, t: root as i64, front_face: false };
        rec.set_face_normal(ray, &outward);
        Some(rec)
    }
}

} // verus!
