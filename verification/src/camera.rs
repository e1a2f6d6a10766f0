//! The pinhole camera: viewport construction, per-pixel ray generation,
//! shading, and the row-major render loop.

use vstd::prelude::*;
use vstd::arithmetic::div_mod::{lemma_fundamental_div_mod, lemma_div_pos_is_pos};
use crate::fixed::{
    SCALE, div_trunc, div_trunc_i128, lemma_div_trunc_bound, lemma_div_trunc_exact,
    lemma_div_trunc_abs_le, lemma_mul_bound,
};
use crate::vec3::{Vec3, Point3, Color, smul, sdiv, len_of};
use crate::ray::Ray;
use crate::interval::Interval;
use crate::hittable::{HittableList, Surface, list_hit_data};
use crate::color::quantize;

verus! {

/// Camera geometry, derived once by `initialize` and read-only afterwards.
pub struct Camera {
    /// Ratio of image width over height, in fixed point.
    pub aspect_ratio: i64,
    /// Rendered image width in pixel count.
    pub image_width: usize,
    /// Rendered image height, derived from the width and the ratio.
    pub image_height: usize,
    /// Camera center.
    pub center: Point3,
    /// Location of pixel (0, 0).
    pub pixel00_loc: Point3,
    /// Offset to the pixel to the right.
    pub pixel_delta_u: Vec3,
    /// Offset to the pixel below.
    pub pixel_delta_v: Vec3,
}

/// The image height the width and ratio determine: `width / ratio`, clamped
/// to at least one pixel.
pub open spec fn derived_image_height(ar: int, w: int) -> int {
    let h = div_trunc(w * (SCALE as int), ar);
    if h < 1 {
        1
    } else {
        h
    }
}

/// The viewport width: a vertical extent of two world units, scaled by the
/// actual pixel ratio `w / h`.
pub open spec fn derived_viewport_width(ar: int, w: int) -> int {
    div_trunc(2 * (SCALE as int) * w, derived_image_height(ar, w))
}

impl Camera {
    /// What `initialize` establishes and `render` relies on: the pixel grid
    /// fits the machine, the deltas move only along their own axis, a whole
    /// row or column of steps stays small, and the viewport sits off the
    /// camera plane so no ray direction is zero.
    pub open spec fn wf(self) -> bool {
        &&& 1 <= self.image_width <= 10_000
        &&& 1 <= self.image_height <= 100_000
        &&& -400_000_000 <= self.pixel00_loc.x <= 400_000_000
        &&& -400_000_000 <= self.pixel00_loc.y <= 400_000_000
        &&& -400_000_000 <= self.pixel00_loc.z <= 400_000_000
        &&& -100_000_000 <= self.center.x <= 100_000_000
        &&& -100_000_000 <= self.center.y <= 100_000_000
        &&& -100_000_000 <= self.center.z <= 100_000_000
        &&& self.pixel_delta_u.y == 0 && self.pixel_delta_u.z == 0
        &&& self.pixel_delta_v.x == 0 && self.pixel_delta_v.z == 0
        &&& 0 <= self.pixel_delta_u.x
        &&& 0 <= self.pixel_delta_u.x * self.image_width <= 450_000_000
        &&& self.pixel_delta_v.y <= 0
        &&& -450_000_000 <= self.pixel_delta_v.y * self.image_height <= 0
        &&& self.pixel00_loc.z != self.center.z
    }

    /// Derive the viewport geometry: image height from width and ratio, a
    /// two-unit-tall viewport one focal length in front of the camera, the
    /// per-pixel steps, and the center of pixel (0, 0), half a step in from
    /// the viewport's upper-left corner.  The bounds on the ratio (a tenth
    /// to a hundred) and the width keep every derived coordinate, and every
    /// ray built from them, inside the fixed-point coordinate range.
    pub fn initialize(aspect_ratio: i64, image_width: usize) -> (cam: Camera)
        requires
            SCALE / 10 <= aspect_ratio <= 100 * SCALE,
            1 <= image_width <= 10_000,
        ensures
            cam.aspect_ratio == aspect_ratio,
            cam.image_width == image_width,
            cam.image_height == derived_image_height(aspect_ratio as int, image_width as int),
            cam.center == (Vec3 { x: 0, y: 0, z: 0 }),
            cam.pixel_delta_u.x == div_trunc(
                derived_viewport_width(aspect_ratio as int, image_width as int),
                image_width as int,
            ),
            cam.pixel_delta_u.y == 0 && cam.pixel_delta_u.z == 0,
            cam.pixel_delta_v.y == -div_trunc(2 * (SCALE as int), cam.image_height as int),
            cam.pixel_delta_v.x == 0 && cam.pixel_delta_v.z == 0,
            cam.pixel00_loc.x == -div_trunc(
                derived_viewport_width(aspect_ratio as int, image_width as int),
                2,
            ) + div_trunc(cam.pixel_delta_u.x as int, 2),
            cam.pixel00_loc.y == SCALE + div_trunc(cam.pixel_delta_v.y as int, 2),
            cam.pixel00_loc.z == -SCALE,
            cam.wf(),
    {
        let ghost ar: int = aspect_ratio as int;
        let ghost w: int = image_width as int;
        proof {
            lemma_camera_derivation_bounds(ar, w);
        }
        let height_raw: i128 = div_trunc_i128(
            (image_width as i128) * (SCALE as i128),
            aspect_ratio as i128,
        );
        let image_height: usize = if height_raw < 1 {
            1
        } else {
            height_raw as usize
        };
        let viewport_width: i64 = div_trunc_i128(
            2 * (SCALE as i128) * (image_width as i128),
            image_height as i128,
        ) as i64;
        proof {
            lemma_div_trunc_abs_le(viewport_width as int, image_width as int);
            lemma_div_trunc_abs_le(2 * (SCALE as int), image_height as int);
            lemma_step_row_bound(viewport_width as int, w);
            lemma_step_row_bound(2 * (SCALE as int), image_height as int);
        }
        let pixel_delta_u = Vec3 {
            x: div_trunc_i128(viewport_width as i128, image_width as i128) as i64,
            y: 0,
            z: 0,
        };
        let pixel_delta_v = Vec3 {
            x: 0,
            y: -(div_trunc_i128(2 * (SCALE as i128), image_height as i128) as i64),
            z: 0,
        };
        proof {
            lemma_div_trunc_abs_le(viewport_width as int, 2);
            lemma_div_trunc_abs_le(pixel_delta_u.x as int, 2);
            lemma_div_trunc_abs_le(pixel_delta_v.y as int, 2);
            let dux: int = pixel_delta_u.x as int;
            let dvy: int = pixel_delta_v.y as int;
            let hh: int = image_height as int;
            let tt: int = div_trunc(2 * (SCALE as int), hh);
            assert(0 <= dux * w) by (nonlinear_arith)
                requires 0 <= dux && 1 <= w;
            assert(dvy * hh == -(tt * hh)) by (nonlinear_arith)
                requires dvy == -tt;
        }
        let pixel00_loc = Vec3 {
            x: -div_trunc_i128(viewport_width as i128, 2) as i64
                + div_trunc_i128(pixel_delta_u.x as i128, 2) as i64,
            y: SCALE + div_trunc_i128(pixel_delta_v.y as i128, 2) as i64,
            z: -SCALE,
        };
        Camera {
            aspect_ratio,
            image_width,
            image_height,
            center: Vec3 { x: 0, y: 0, z: 0 },
            pixel00_loc,
            pixel_delta_u,
            pixel_delta_v,
        }
    }

    /// The ray through the center of pixel `(i, j)`.
    pub open spec fn pixel_ray(self, i: int, j: int) -> Ray {
        Ray {
            origin: self.center,
            direction: Vec3 {
                x: (self.pixel00_loc.x + self.pixel_delta_u.x * i + self.pixel_delta_v.x * j
                    - self.center.x) as i64,
                y: (self.pixel00_loc.y + self.pixel_delta_u.y * i + self.pixel_delta_v.y * j
                    - self.center.y) as i64,
                z: (self.pixel00_loc.z + self.pixel_delta_u.z * i + self.pixel_delta_v.z * j
                    - self.center.z) as i64,
            },
        }
    }

    /// The quantized colour of pixel `(i, j)`.
    pub open spec fn pixel_color(self, objs: Seq<Surface>, i: int, j: int) -> (i64, i64, i64) {
        let rc = ray_color_of(self.pixel_ray(i, j), objs);
        (quantize(rc.0) as i64, quantize(rc.1) as i64, quantize(rc.2) as i64)
    }

    /// Render the scene: one ray through each pixel center, top row first,
    /// left to right within a row, each sample shaded and quantized.
    pub fn render(&self, world: &HittableList) -> (pixels: Vec<(i64, i64, i64)>)
        requires
            self.wf(),
            world.wf(),
        ensures
            pixels@.len() == self.image_width * self.image_height,
            forall|j: int, i: int|
                0 <= j < self.image_height && 0 <= i < self.image_width
                    ==> pixels@[j * self.image_width + i] == self.pixel_color(
                    world.objects@,
                    i,
                    j,
                ),
    {
        let w: usize = self.image_width;
        let h: usize = self.image_height;
        let mut pixels: Vec<(i64, i64, i64)> = Vec::new();
        let mut j: usize = 0;
        while j < h
            invariant
                self.wf(),
                world.wf(),
                w == self.image_width,
                h == self.image_height,
                0 <= j <= h,
                pixels@.len() == j * w,
                forall|r: int, c: int|
                    0 <= r < j && 0 <= c < w ==> pixels@[r * w + c] == self.pixel_color(
                        world.objects@,
                        c,
                        r,
                    ),
            decreases h - j,
        {
            let mut i: usize = 0;
            while i < w
                invariant
                    self.wf(),
                    world.wf(),
                    w == self.image_width,
                    h == self.image_height,
                    0 <= j < h,
                    0 <= i <= w,
                    pixels@.len() == j * w + i,
                    forall|r: int, c: int|
                        0 <= r < j && 0 <= c < w ==> pixels@[r * w + c] == self.pixel_color(
                            world.objects@,
                            c,
                            r,
                        ),
                    forall|c: int|
                        0 <= c < i ==> pixels@[j * w + c] == self.pixel_color(
                            world.objects@,
                            c,
                            j as int,
                        ),
                decreases w - i,
            {
                let ray = self.pixel_ray_exec(i, j);
                let color = ray_color(&ray, world);
                let rgb = color.write();
                pixels.push(rgb);
                proof {
                    assert(pixels@.len() == j * w + i + 1);
                    let rc = ray_color_of(ray, world.objects@);
                    assert(rgb.0 == quantize(rc.0) && rgb.1 == quantize(rc.1) && rgb.2
                        == quantize(rc.2));
                    assert(rgb == self.pixel_color(world.objects@, i as int, j as int));
                    assert(pixels@[j * w + i] == rgb);
                    assert forall|r: int, c: int|
                        0 <= r < j && 0 <= c < w implies pixels@[r * w + c] == self.pixel_color(
                        world.objects@,
                        c,
                        r,
                    ) by {
                        assert(0 <= r * w + c < j * w) by (nonlinear_arith)
                            requires 0 <= r < j && 0 <= c < w;
                    };
                }
                i = i + 1;
            }
            proof {
                assert((j + 1) * w == j * w + w) by (nonlinear_arith);
            }
            j = j + 1;
        }
        proof {
            assert(pixels@.len() == h * w);
            assert(h * w == w * h) by (nonlinear_arith);
        }
        pixels
    }

    /// Build the ray through pixel `(i, j)`'s center.
    fn pixel_ray_exec(&self, i: usize, j: usize) -> (r: Ray)
        requires
            self.wf(),
            i < self.image_width,
            j < self.image_height,
        ensures
            r == self.pixel_ray(i as int, j as int),
            r.wf(),
    {
        proof {
            lemma_step_column_bound(
                self.pixel_delta_u.x as int,
                i as int,
                self.image_width as int,
            );
            lemma_step_column_bound(
                self.pixel_delta_v.y as int,
                j as int,
                self.image_height as int,
            );
        }
        let dx: i128 = (self.pixel00_loc.x as i128) + (self.pixel_delta_u.x as i128) * (i as i128)
            - (self.center.x as i128);
        let dy: i128 = (self.pixel00_loc.y as i128) + (self.pixel_delta_v.y as i128) * (j as i128)
            - (self.center.y as i128);
        let dz: i128 = (self.pixel00_loc.z as i128) - (self.center.z as i128);
        Ray {
            origin: self.center,
            direction: Vec3 { x: dx as i64, y: dy as i64, z: dz as i64 },
        }
    }
}

/// The colour a ray's query of the scene yields: the remapped surface normal
/// where there is a hit inside `(0, +infinity)`, else the vertical
/// white-to-sky gradient driven by the unit direction's `y`.
pub open spec fn ray_color_of(r: Ray, objs: Seq<Surface>) -> (int, int, int) {
    let ray_t = Interval { min: 0, max: i64::MAX };
    match list_hit_data(objs, r, ray_t) {
        Some(hd) => (
            smul(hd.nx + SCALE as int, 500_000),
            smul(hd.ny + SCALE as int, 500_000),
            smul(hd.nz + SCALE as int, 500_000),
        ),
        None => {
            let uy = sdiv(r.direction.y as int, len_of(r.direction));
            let av = smul(uy + SCALE as int, 500_000);
            let white = SCALE as int - av;
            (
                smul(SCALE as int, white) + smul(500_000, av),
                smul(SCALE as int, white) + smul(700_000, av),
                smul(SCALE as int, white) + smul(SCALE as int, av),
            )
        },
    }
}

/// Shade one ray against the scene.
fn ray_color(ray: &Ray, world: &HittableList) -> (c: Color)
    requires
        ray.wf(),
        world.wf(),
    ensures
        c.x == ray_color_of(*ray, world.objects@).0,
        c.y == ray_color_of(*ray, world.objects@).1,
        c.z == ray_color_of(*ray, world.objects@).2,
{
    let ray_t = Interval { min: 0, max: i64::MAX };
    match world.hit(ray, ray_t) {
        Some(rec) => Vec3 {
            x: shade_channel(rec.normal.x),
            y: shade_channel(rec.normal.y),
            z: shade_channel(rec.normal.z),
        },
        None => {
            let unit_direction = ray.direction.unit();
            let av: i64 = shade_channel(unit_direction.y);
            proof {
                lemma_smul_small(SCALE as int - av as int);
                lemma_smul_small(av as int);
                lemma_gradient_terms(av as int);
            }
            let white = Vec3::create(SCALE, SCALE, SCALE).mul(SCALE - av);
            let sky = Vec3::create(500_000, 700_000, SCALE).mul(av);
            white.add(sky)
        },
    }
}

/// One channel of `0.5 * (v + 1)`: the remap from `[-1, 1]` to `[0, 1]`.
fn shade_channel(v: i64) -> (r: i64)
    ensures
        r == smul(v as int + SCALE as int, 500_000),
{
    proof {
        lemma_mul_bound(
            v as int + SCALE as int,
            500_000,
            10_000_000_000_000_000_000,
            500_000,
        );
        lemma_div_trunc_bound(
            (v as int + SCALE as int) * 500_000,
            SCALE as int,
            5_000_000_000_000_000_000,
        );
    }
    div_trunc_i128(((v as i128) + (SCALE as i128)) * 500_000, SCALE as i128) as i64
}

/// Multiplying the full scale by a small factor is exact, and a small factor
/// scaled by half stays small.
proof fn lemma_smul_small(k: int)
    requires
        -(SCALE as int) <= k <= 2 * (SCALE as int),
    ensures
        smul(SCALE as int, k) == k,
        crate::fixed::fits_i64(smul(SCALE as int, k)),
{
    lemma_div_trunc_exact(k, SCALE as int);
    assert(k * (SCALE as int) == (SCALE as int) * k) by (nonlinear_arith);
}

/// The gradient's two scaled terms stay within machine range.
proof fn lemma_gradient_terms(av: int)
    requires
        -(SCALE as int) <= av <= 2 * (SCALE as int),
    ensures
        -(SCALE as int) <= smul(500_000, av) <= 2 * (SCALE as int),
        -(SCALE as int) <= smul(700_000, av) <= 2 * (SCALE as int),
        crate::fixed::fits_i64(smul(500_000, av)),
        crate::fixed::fits_i64(smul(700_000, av)),
{
    lemma_mul_bound(500_000, av, 500_000, 2 * (SCALE as int));
    lemma_mul_bound(700_000, av, 700_000, 2 * (SCALE as int));
    lemma_div_trunc_bound(500_000 * av, SCALE as int, 2 * (SCALE as int));
    lemma_div_trunc_bound(700_000 * av, SCALE as int, 2 * (SCALE as int));
}

/// Bounds for the derived viewport: the height lands between one pixel and
/// ten per width unit, and the viewport never exceeds four hundred units.
proof fn lemma_camera_derivation_bounds(ar: int, w: int)
    requires
        (SCALE as int) / 10 <= ar <= 100 * (SCALE as int),
        1 <= w <= 10_000,
    ensures
        1 <= derived_image_height(ar, w) <= 100_000,
        0 <= derived_viewport_width(ar, w) <= 400_000_000,
        2 * (SCALE as int) * w <= 450_000_000 * derived_image_height(ar, w),
{
    let s: int = SCALE as int;
    let t: int = div_trunc(w * s, ar);
    lemma_fundamental_div_mod(w * s, ar);
    lemma_div_pos_is_pos(w * s, ar);
    let q: int = (w * s) / ar;
    assert(t == q);
    // Upper bound on the height: the ratio is at least a tenth.
    assert(10 * w >= q) by (nonlinear_arith)
        requires
            w * s == ar * q + (w * s) % ar,
            0 <= (w * s) % ar,
            ar >= s / 10,
            s == 1_000_000,
            q >= 0,
            w >= 1;
    let h: int = derived_image_height(ar, w);
    assert(1 <= h <= 100_000);
    // Lower bound for the viewport: a wide ratio still leaves h near w/100.
    assert(100 * q >= w - 100) by (nonlinear_arith)
        requires
            w * s == ar * q + (w * s) % ar,
            (w * s) % ar < ar,
            ar <= 100 * s,
            q >= 0,
            s == 1_000_000;
    assert(2 * s * w <= 450_000_000 * h) by (nonlinear_arith)
        requires
            s == 1_000_000,
            1 <= w <= 10_000,
            h >= 1,
            h >= q,
            100 * q >= w - 100;
    // The viewport width itself.
    lemma_div_pos_is_pos(2 * s * w, h);
    assert(-(400_000_000 * h) <= 2 * s * w <= 400_000_000 * h) by (nonlinear_arith)
        requires
            s == 1_000_000,
            1 <= w <= 10_000,
            h >= 1,
            h >= q,
            100 * q >= w - 100;
    lemma_div_trunc_bound(2 * s * w, h, 400_000_000);
}

/// A per-pixel step times its own pixel count stays within the row it was
/// carved from.
proof fn lemma_step_row_bound(total: int, count: int)
    requires
        0 <= total,
        1 <= count,
    ensures
        0 <= div_trunc(total, count),
        div_trunc(total, count) * count <= total,
{
    lemma_fundamental_div_mod(total, count);
    lemma_div_pos_is_pos(total, count);
    assert(div_trunc(total, count) == (total / count));
    assert((total / count) * count == count * (total / count)) by (nonlinear_arith);
}

/// A step taken fewer times than the full row stays within the full row's
/// extent, whichever way it points.
proof fn lemma_step_column_bound(step: int, k: int, count: int)
    requires
        0 <= k < count,
        -450_000_000 <= step * count <= 450_000_000,
    ensures
        -450_000_000 <= step * k <= 450_000_000,
{
    assert(-450_000_000 <= step * k <= 450_000_000) by (nonlinear_arith)
        requires 0 <= k <= count && -450_000_000 <= step * count <= 450_000_000;
}

} // verus!
