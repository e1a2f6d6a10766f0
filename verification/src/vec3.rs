//! Vector algebra over fixed-point coordinates.

use vstd::prelude::*;
use crate::fixed::{
    SCALE, COORD_BOUND, fits_i64, div_trunc, sqrt_floor, div_trunc_i128, isqrt_u128,
    lemma_div_trunc_bound, lemma_sqrt_floor_bounds, lemma_sqrt_floor_mono,
    lemma_sqrt_floor_square,
};

verus! {

/// A three-component vector; each component counts millionths of a world unit.
#[derive(Clone, Copy, PartialEq, Eq, Structural, Debug)]
pub struct Vec3 {
    pub x: i64,
    pub y: i64,
    pub z: i64,
}

/// A position in space — the same representation, read as a point.
pub type Point3 = Vec3;

/// An RGB colour — the same representation; each channel nominally spans
/// zero to one world unit before quantization.
pub type Color = Vec3;

/// The exact inner product of the raw components (no rescaling).
pub open spec fn dot3(a: Vec3, b: Vec3) -> int {
    a.x * b.x + a.y * b.y + a.z * b.z
}

/// The exact sum of the squared raw components.
pub open spec fn norm2(v: Vec3) -> int {
    dot3(v, v)
}

/// Scalar multiplication of fixed-point values: `x * k`, rescaled.
pub open spec fn smul(x: int, k: int) -> int {
    div_trunc(x * k, SCALE as int)
}

/// Scalar division of fixed-point values: `x / k`, rescaled.
pub open spec fn sdiv(x: int, k: int) -> int {
    div_trunc(x * (SCALE as int), k)
}

/// The fixed-point length of `v`: the floor of the square root of the exact
/// sum of squares, which lands back on the coordinate scale.
pub open spec fn len_of(v: Vec3) -> int {
    sqrt_floor(norm2(v) as nat) as int
}

impl Vec3 {
    /// All components within `COORD_BOUND`; the range the geometric
    /// routines accept.
    pub open spec fn bounded(self) -> bool {
        &&& -COORD_BOUND <= self.x <= COORD_BOUND
        &&& -COORD_BOUND <= self.y <= COORD_BOUND
        &&& -COORD_BOUND <= self.z <= COORD_BOUND
    }

    pub open spec fn is_zero(self) -> bool {
        self.x == 0 && self.y == 0 && self.z == 0
    }

    pub fn zero() -> (r: Self)
        ensures
            r == (Vec3 { x: 0, y: 0, z: 0 }),
    {
        Vec3 { x: 0, y: 0, z: 0 }
    }

    pub fn create(x: i64, y: i64, z: i64) -> (r: Self)
        ensures
            r == (Vec3 { x, y, z }),
    {
        Vec3 { x, y, z }
    }

    pub fn add(self, rhs: Vec3) -> (r: Vec3)
        requires
            fits_i64(self.x + rhs.x),
            fits_i64(self.y + rhs.y),
            fits_i64(self.z + rhs.z),
        ensures
            r.x == self.x + rhs.x,
            r.y == self.y + rhs.y,
            r.z == self.z + rhs.z,
    {
        Vec3 { x: self.x + rhs.x, y: self.y + rhs.y, z: self.z + rhs.z }
    }

    pub fn sub(self, rhs: Vec3) -> (r: Vec3)
        requires
            fits_i64(self.x - rhs.x),
            fits_i64(self.y - rhs.y),
            fits_i64(self.z - rhs.z),
        ensures
            r.x == self.x - rhs.x,
            r.y == self.y - rhs.y,
            r.z == self.z - rhs.z,
    {
        Vec3 { x: self.x - rhs.x, y: self.y - rhs.y, z: self.z - rhs.z }
    }

    pub fn neg(self) -> (r: Vec3)
        requires
            self.x > i64::MIN,
            self.y > i64::MIN,
            self.z > i64::MIN,
        ensures
            r.x == -self.x,
            r.y == -self.y,
            r.z == -self.z,
    {
        Vec3 { x: -self.x, y: -self.y, z: -self.z }
    }

    /// Multiply by a fixed-point scalar, each component rounded toward zero.
    pub fn mul(self, k: i64) -> (r: Vec3)
        requires
            fits_i64(smul(self.x as int, k as int)),
            fits_i64(smul(self.y as int, k as int)),
            fits_i64(smul(self.z as int, k as int)),
        ensures
            r.x == smul(self.x as int, k as int),
            r.y == smul(self.y as int, k as int),
            r.z == smul(self.z as int, k as int),
    {
        Vec3 {
            x: Self::smul_exec(self.x, k),
            y: Self::smul_exec(self.y, k),
            z: Self::smul_exec(self.z, k),
        }
    }

    /// Divide by a fixed-point scalar, each component rounded toward zero.
    pub fn div(self, k: i64) -> (r: Vec3)
        requires
            k != 0,
            fits_i64(sdiv(self.x as int, k as int)),
            fits_i64(sdiv(self.y as int, k as int)),
            fits_i64(sdiv(self.z as int, k as int)),
        ensures
            r.x == sdiv(self.x as int, k as int),
            r.y == sdiv(self.y as int, k as int),
            r.z == sdiv(self.z as int, k as int),
    {
        Vec3 {
            x: Self::sdiv_exec(self.x, k),
            y: Self::sdiv_exec(self.y, k),
            z: Self::sdiv_exec(self.z, k),
        }
    }

    fn smul_exec(x: i64, k: i64) -> (r: i64)
        requires
            fits_i64(smul(x as int, k as int)),
        ensures
            r == smul(x as int, k as int),
    {
        proof {
            lemma_i64_product_in_i128(x as int, k as int);
        }
        let q: i128 = div_trunc_i128((x as i128) * (k as i128), SCALE as i128);
        q as i64
    }

    fn sdiv_exec(x: i64, k: i64) -> (r: i64)
        requires
            k != 0,
            fits_i64(sdiv(x as int, k as int)),
        ensures
            r == sdiv(x as int, k as int),
    {
        let q: i128 = div_trunc_i128((x as i128) * (SCALE as i128), k as i128);
        q as i64
    }

    /// The inner product, rescaled onto the coordinate scale.
    pub fn dot(&self, rhs: Self) -> (r: i64)
        requires
            self.bounded(),
            rhs.bounded(),
        ensures
            r == div_trunc(dot3(*self, rhs), SCALE as int),
    {
        let s: i128 = Self::dot3_exec(*self, rhs);
        let q: i128 = div_trunc_i128(s, SCALE as i128);
        proof {
            lemma_div_trunc_bound(s as int, SCALE as int, 3_000_000_000_000);
        }
        q as i64
    }

    fn dot3_exec(a: Vec3, b: Vec3) -> (s: i128)
        requires
            a.bounded(),
            b.bounded(),
        ensures
            s == dot3(a, b),
            -3_000_000_000_000_000_000 <= s <= 3_000_000_000_000_000_000,
    {
        proof {
            lemma_bounded_product(a.x as int, b.x as int);
            lemma_bounded_product(a.y as int, b.y as int);
            lemma_bounded_product(a.z as int, b.z as int);
        }
        (a.x as i128) * (b.x as i128) + (a.y as i128) * (b.y as i128)
            + (a.z as i128) * (b.z as i128)
    }

    /// The cross product (right-hand rule), rescaled onto the coordinate scale.
    pub fn cross(&self, rhs: Self) -> (r: Vec3)
        requires
            self.bounded(),
            rhs.bounded(),
        ensures
            r.x == div_trunc(self.y * rhs.z - self.z * rhs.y, SCALE as int),
            r.y == div_trunc(self.z * rhs.x - self.x * rhs.z, SCALE as int),
            r.z == div_trunc(self.x * rhs.y - self.y * rhs.x, SCALE as int),
    {
        Vec3 {
            x: Self::cross_comp(self.y, rhs.z, self.z, rhs.y),
            y: Self::cross_comp(self.z, rhs.x, self.x, rhs.z),
            z: Self::cross_comp(self.x, rhs.y, self.y, rhs.x),
        }
    }

    fn cross_comp(a: i64, b: i64, c: i64, d: i64) -> (r: i64)
        requires
            -COORD_BOUND <= a <= COORD_BOUND,
            -COORD_BOUND <= b <= COORD_BOUND,
            -COORD_BOUND <= c <= COORD_BOUND,
            -COORD_BOUND <= d <= COORD_BOUND,
        ensures
            r == div_trunc(a * b - c * d, SCALE as int),
    {
        proof {
            lemma_bounded_product(a as int, b as int);
            lemma_bounded_product(c as int, d as int);
        }
        let s: i128 = (a as i128) * (b as i128) - (c as i128) * (d as i128);
        let q: i128 = div_trunc_i128(s, SCALE as i128);
        proof {
            lemma_div_trunc_bound(s as int, SCALE as int, 2_000_000_000_000);
        }
        q as i64
    }

    /// The squared length, rescaled onto the coordinate scale.
    pub fn length_squared(&self) -> (r: i64)
        requires
            self.bounded(),
        ensures
            r == div_trunc(norm2(*self), SCALE as int),
    {
        self.dot(*self)
    }

    /// The length: the floor of the square root of the exact sum of squares.
    pub fn length(&self) -> (r: i64)
        requires
            self.bounded(),
        ensures
            r == len_of(*self),
            0 <= r <= 2_000_000_000,
    {
        let s: i128 = Self::dot3_exec(*self, *self);
        proof {
            lemma_norm2_nonneg(*self);
            lemma_sqrt_floor_bounds(s as nat);
            let u: nat = sqrt_floor(s as nat);
            assert(u <= 2_000_000_000) by (nonlinear_arith)
                requires u >= 0 && u * u <= 3_000_000_000_000_000_000;
        }
        let r: u128 = isqrt_u128(s as u128);
        r as i64
    }

    /// The unit vector in the direction of `self`.  Undefined on a zero
    /// vector (the length would be zero), so callers must keep it away.
    pub fn unit(self) -> (r: Vec3)
        requires
            self.bounded(),
            !self.is_zero(),
        ensures
            r.x == sdiv(self.x as int, len_of(self)),
            r.y == sdiv(self.y as int, len_of(self)),
            r.z == sdiv(self.z as int, len_of(self)),
            -SCALE <= r.x <= SCALE,
            -SCALE <= r.y <= SCALE,
            -SCALE <= r.z <= SCALE,
    {
        let len: i64 = self.length();
        proof {
            lemma_len_dominates_components(self);
            lemma_unit_component_bound(self.x as int, len as int);
            lemma_unit_component_bound(self.y as int, len as int);
            lemma_unit_component_bound(self.z as int, len as int);
        }
        Vec3 {
            x: Self::sdiv_exec(self.x, len),
            y: Self::sdiv_exec(self.y, len),
            z: Self::sdiv_exec(self.z, len),
        }
    }
}

/// A unit vector has length one, up to a handful of fixed-point steps: for
/// any vector of at least one world unit, the components `unit` produces
/// have a length within `5 / SCALE` of one world unit.
pub proof fn lemma_unit_has_unit_length(v: Vec3, u: Vec3)
    requires
        v.bounded(),
        len_of(v) >= SCALE,
        u.x == sdiv(v.x as int, len_of(v)),
        u.y == sdiv(v.y as int, len_of(v)),
        u.z == sdiv(v.z as int, len_of(v)),
    ensures
        SCALE - 4 <= len_of(u) <= SCALE + 1,
{
    let s: int = SCALE as int;
    let lv: int = len_of(v);
    lemma_norm2_nonneg(v);
    lemma_norm2_nonneg(u);
    lemma_sqrt_floor_bounds(norm2(v) as nat);
    lemma_len_dominates_components(v);
    lemma_unit_sq_bounds(v.x as int, lv, u.x as int);
    lemma_unit_sq_bounds(v.y as int, lv, u.y as int);
    lemma_unit_sq_bounds(v.z as int, lv, u.z as int);
    let l2: int = lv * lv;
    let s2: int = s * s;
    let ux2: int = u.x * u.x;
    let uy2: int = u.y * u.y;
    let uz2: int = u.z * u.z;
    let vx2: int = v.x * v.x;
    let vy2: int = v.y * v.y;
    let vz2: int = v.z * v.z;
    let mx: int = if v.x >= 0 { v.x as int } else { -(v.x as int) };
    let my: int = if v.y >= 0 { v.y as int } else { -(v.y as int) };
    let mz: int = if v.z >= 0 { v.z as int } else { -(v.z as int) };
    lemma_unit_sq_rearrange(u.x as int, v.x as int, lv, s, mx);
    lemma_unit_sq_rearrange(u.y as int, v.y as int, lv, s, my);
    lemma_unit_sq_rearrange(u.z as int, v.z as int, lv, s, mz);
    assert((ux2 + uy2 + uz2) * l2 == ux2 * l2 + uy2 * l2 + uz2 * l2) by (nonlinear_arith);
    assert((vx2 + vy2 + vz2) * s2 == vx2 * s2 + vy2 * s2 + vz2 * s2) by (nonlinear_arith);
    // Upper bound: the unit components' squares sum below `(S + 1)^2`.
    assert(norm2(u) * l2 <= norm2(v) * s2);
    assert(norm2(v) * s2 < ((lv + 1) * (lv + 1)) * s2) by (nonlinear_arith)
        requires norm2(v) < (lv + 1) * (lv + 1) && s2 > 0;
    assert(norm2(u) <= (s + 1) * (s + 1)) by (nonlinear_arith)
        requires
            norm2(u) * l2 < ((lv + 1) * (lv + 1)) * s2,
            l2 == lv * lv,
            s2 == s * s,
            norm2(u) >= 0,
            lv >= s,
            s == 1_000_000;
    // Lower bound: they sum above `S^2 - 6 S`.
    assert(mx * s * lv <= lv * s * lv && my * s * lv <= lv * s * lv && mz * s * lv <= lv * s * lv)
        by (nonlinear_arith)
        requires 0 <= mx <= lv && 0 <= my <= lv && 0 <= mz <= lv && s > 0 && lv > 0;
    assert(norm2(u) * l2 >= norm2(v) * s2 - 6 * (lv * s * lv));
    assert(norm2(v) * s2 >= l2 * s2) by (nonlinear_arith)
        requires norm2(v) >= l2 && s2 > 0;
    assert(norm2(u) >= (s - 4) * (s - 4)) by (nonlinear_arith)
        requires
            norm2(u) * l2 >= l2 * s2 - 6 * (lv * s * lv),
            l2 == lv * lv,
            s2 == s * s,
            lv >= 1,
            s == 1_000_000;
    lemma_sqrt_floor_mono(((s - 4) * (s - 4)) as nat, norm2(u) as nat);
    lemma_sqrt_floor_mono(norm2(u) as nat, ((s + 1) * (s + 1)) as nat);
    lemma_sqrt_floor_square((s - 4) as nat);
    lemma_sqrt_floor_square((s + 1) as nat);
}

/// One component of a unit vector: its magnitude scaled by `L` lands within
/// one step of the vector's own component scaled by `S`.
proof fn lemma_unit_sq_bounds(x: int, lv: int, q: int)
    requires
        lv >= 1,
        -0x7fff_ffff_ffff_ffff <= x <= 0x7fff_ffff_ffff_ffff,
        q == sdiv(x, lv),
    ensures
        (q * lv) * (q * lv) <= (x * (SCALE as int)) * (x * (SCALE as int)),
        (q * lv) * (q * lv) >= (x * (SCALE as int)) * (x * (SCALE as int)) - 2 * ((if x >= 0 {
            x
        } else {
            -x
        }) * (SCALE as int)) * lv,
{
    let s: int = SCALE as int;
    let m: int = if x >= 0 { x } else { -x };
    let mq: int = if q >= 0 { q } else { -q };
    assert(m * s >= 0 && (x >= 0 ==> m * s == x * s) && (x < 0 ==> m * s == -(x * s)))
        by (nonlinear_arith)
        requires m == (if x >= 0 { x } else { -x }) && s >= 1;
    vstd::arithmetic::div_mod::lemma_fundamental_div_mod(m * s, lv);
    vstd::arithmetic::div_mod::lemma_div_pos_is_pos(m * s, lv);
    assert(mq == (m * s) / lv);
    assert(0 <= mq * lv <= m * s && mq * lv > m * s - lv) by (nonlinear_arith)
        requires
            m * s == lv * mq + (m * s) % lv,
            0 <= (m * s) % lv < lv,
            mq >= 0,
            lv >= 1;
    assert((q * lv) * (q * lv) == (mq * lv) * (mq * lv) && (x * s) * (x * s) == (m * s) * (m * s))
        by (nonlinear_arith)
        requires
            m == (if x >= 0 { x } else { -x }),
            mq == (if q >= 0 { q } else { -q });
    assert((mq * lv) * (mq * lv) <= (m * s) * (m * s)) by (nonlinear_arith)
        requires 0 <= mq * lv <= m * s;
    assert((mq * lv) * (mq * lv) >= (m * s) * (m * s) - 2 * (m * s) * lv) by (nonlinear_arith)
        requires
            0 <= mq * lv <= m * s,
            mq * lv > m * s - lv,
            lv >= 1;
}

/// Rewrites the squared-step bounds onto square-of-component atoms.
proof fn lemma_unit_sq_rearrange(q: int, x: int, lv: int, s: int, m: int)
    requires
        (q * lv) * (q * lv) <= (x * s) * (x * s),
        (q * lv) * (q * lv) >= (x * s) * (x * s) - 2 * (m * s) * lv,
    ensures
        (q * q) * (lv * lv) <= (x * x) * (s * s),
        (q * q) * (lv * lv) >= (x * x) * (s * s) - 2 * (m * s * lv),
{
    assert((q * lv) * (q * lv) == (q * q) * (lv * lv) && (x * s) * (x * s) == (x * x) * (s * s)
        && 2 * (m * s) * lv == 2 * (m * s * lv)) by (nonlinear_arith);
}

/// Squares are nonnegative, so the squared norm is.
pub proof fn lemma_norm2_nonneg(v: Vec3)
    ensures
        norm2(v) >= v.x * v.x >= 0,
        norm2(v) >= v.y * v.y >= 0,
        norm2(v) >= v.z * v.z >= 0,
{
    assert(v.x * v.x >= 0 && v.y * v.y >= 0 && v.z * v.z >= 0) by (nonlinear_arith);
}

pub proof fn lemma_i64_product_in_i128(a: int, b: int)
    requires
        -0x8000_0000_0000_0000 <= a <= 0x7fff_ffff_ffff_ffff,
        -0x8000_0000_0000_0000 <= b <= 0x7fff_ffff_ffff_ffff,
    ensures
        -0x8000_0000_0000_0000_0000_0000_0000_0000 <= a * b
            <= 0x7fff_ffff_ffff_ffff_ffff_ffff_ffff_ffff,
{
    assert(-0x4000_0000_0000_0000_0000_0000_0000_0000 <= a * b
        <= 0x4000_0000_0000_0000_0000_0000_0000_0000) by (nonlinear_arith)
        requires
            -0x8000_0000_0000_0000 <= a <= 0x8000_0000_0000_0000
                && -0x8000_0000_0000_0000 <= b <= 0x8000_0000_0000_0000;
}

proof fn lemma_bounded_product(a: int, b: int)
    requires
        -1_000_000_000 <= a <= 1_000_000_000,
        -1_000_000_000 <= b <= 1_000_000_000,
    ensures
        -1_000_000_000_000_000_000 <= a * b <= 1_000_000_000_000_000_000,
{
    assert(-1_000_000_000_000_000_000 <= a * b <= 1_000_000_000_000_000_000) by (nonlinear_arith)
        requires -1_000_000_000 <= a <= 1_000_000_000 && -1_000_000_000 <= b <= 1_000_000_000;
}

/// The floor square root of the squared norm still dominates each component,
/// and a nonzero vector has length at least one.
pub proof fn lemma_len_dominates_components(v: Vec3)
    ensures
        len_of(v) >= v.x >= -len_of(v),
        len_of(v) >= v.y >= -len_of(v),
        len_of(v) >= v.z >= -len_of(v),
        !v.is_zero() ==> len_of(v) >= 1,
{
    lemma_norm2_nonneg(v);
    lemma_component_under_len(v, v.x as int);
    lemma_component_under_len(v, v.y as int);
    lemma_component_under_len(v, v.z as int);
    if !v.is_zero() {
        assert(norm2(v) >= 1) by (nonlinear_arith)
            requires
                !(v.x == 0 && v.y == 0 && v.z == 0),
                norm2(v) == v.x * v.x + v.y * v.y + v.z * v.z,
                v.x * v.x >= 0 && v.y * v.y >= 0 && v.z * v.z >= 0;
        lemma_sqrt_floor_bounds(norm2(v) as nat);
        if len_of(v) == 0 {
            assert(norm2(v) < 1);
        }
    }
}

proof fn lemma_component_under_len(v: Vec3, c: int)
    requires
        c * c <= norm2(v),
        norm2(v) >= 0,
    ensures
        -len_of(v) <= c <= len_of(v),
{
    let m: nat = (if c >= 0 { c } else { -c }) as nat;
    assert(m * m == c * c) by (nonlinear_arith)
        requires m == (if c >= 0 { c } else { -c });
    lemma_sqrt_floor_square(m);
    lemma_sqrt_floor_mono((m * m) as nat, norm2(v) as nat);
}

proof fn lemma_unit_component_bound(c: int, len: int)
    requires
        len >= 1,
        -len <= c <= len,
    ensures
        -(SCALE as int) <= sdiv(c, len) <= SCALE as int,
        fits_i64(sdiv(c, len)),
{
    assert(-(SCALE as int) * len <= c * (SCALE as int) <= (SCALE as int) * len) by (nonlinear_arith)
        requires len >= 1 && -len <= c <= len;
    lemma_div_trunc_bound(c * (SCALE as int), len, SCALE as int);
}

} // verus!
