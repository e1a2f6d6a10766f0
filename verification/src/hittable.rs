//! The surface-intersection protocol: the record a successful query returns,
//! and the aggregate scene that reports the closest hit.

use vstd::prelude::*;
use crate::fixed::lemma_mul_bound;
use crate::vec3::{Vec3, Point3, dot3};
use crate::ray::Ray;
use crate::interval::Interval;
use crate::sphere::{Sphere, sphere_hit_data};

verus! {

/// The attributes of one ray/surface intersection.  `normal` has unit
/// length (up to fixed-point rounding) and is oriented against the
/// incoming ray; `front_face` records whether that required flipping the
/// outward normal.
#[derive(Clone, Copy, PartialEq, Eq, Structural, Debug)]
pub struct HitRecord {
    pub p: Point3,
    pub normal: Vec3,
    pub t: i64,
    pub front_face: bool,
}

/// The mathematical value of a hit record, before narrowing to machine
/// integers: exact fixed-point coordinates of the hit point, the oriented
/// normal, the parameter, and the orientation flag.
pub ghost struct HitData {
    pub px: int,
    pub py: int,
    pub pz: int,
    pub nx: int,
    pub ny: int,
    pub nz: int,
    pub t: int,
    pub front_face: bool,
}

/// The machine record carries exactly the mathematical hit.
pub open spec fn rec_matches(rec: HitRecord, h: HitData) -> bool {
    &&& rec.p.x == h.px
    &&& rec.p.y == h.py
    &&& rec.p.z == h.pz
    &&& rec.normal.x == h.nx
    &&& rec.normal.y == h.ny
    &&& rec.normal.z == h.nz
    &&& rec.t == h.t
    &&& rec.front_face == h.front_face
}

/// An executable hit result agrees with a mathematical one: none where none,
/// and the exact record where one.
pub open spec fn hit_result_ok(res: Option<HitRecord>, sh: Option<HitData>) -> bool {
    match sh {
        None => res is None,
        Some(h) => res matches Some(rec) && rec_matches(rec, h),
    }
}

impl HitRecord {
    /// Orient `outward_normal` against the incoming ray: the stored normal
    /// points toward the side the ray came from, and `front_face` says
    /// whether that was the outward side.
    pub fn set_face_normal(&mut self, ray: &Ray, outward_normal: &Vec3)
        requires
            ray.direction.bounded(),
            outward_normal.x > i64::MIN,
            outward_normal.y > i64::MIN,
            outward_normal.z > i64::MIN,
        ensures
            final(self).front_face == (dot3(*outward_normal, ray.direction) < 0),
            final(self).normal.x == if final(self).front_face {
                outward_normal.x as int
            } else {
                -(outward_normal.x as int)
            },
            final(self).normal.y == if final(self).front_face {
                outward_normal.y as int
            } else {
                -(outward_normal.y as int)
            },
            final(self).normal.z == if final(self).front_face {
                outward_normal.z as int
            } else {
                -(outward_normal.z as int)
            },
            final(self).p == old(self).p,
            final(self).t == old(self).t,
    {
        proof {
            lemma_mul_bound(
                outward_normal.x as int,
                ray.direction.x as int,
                0x8000_0000_0000_0000,
                1_000_000_000,
            );
            lemma_mul_bound(
                outward_normal.y as int,
                ray.direction.y as int,
                0x8000_0000_0000_0000,
                1_000_000_000,
            );
            lemma_mul_bound(
                outward_normal.z as int,
                ray.direction.z as int,
                0x8000_0000_0000_0000,
                1_000_000_000,
            );
        }
        let d: i128 = (outward_normal.x as i128) * (ray.direction.x as i128)
            + (outward_normal.y as i128) * (ray.direction.y as i128)
            + (outward_normal.z as i128) * (ray.direction.z as i128);
        self.front_face = d < 0;
        self.normal = if self.front_face {
            *outward_normal
        } else {
            Vec3 { x: -outward_normal.x, y: -outward_normal.y, z: -outward_normal.z }
        };
    }
}

/// One kind of surface a scene can hold.  Every variant answers the same
/// single query — the nearest acceptable intersection — so a future surface
/// is one more variant here.
#[derive(Clone, Copy, PartialEq, Eq, Structural, Debug)]
pub enum Surface {
    Sphere(Sphere),
}

/// What `Surface::hit` returns, by variant.
pub open spec fn surface_hit_data(sf: Surface, r: Ray, ray_t: Interval) -> Option<HitData> {
    match sf {
        Surface::Sphere(s) => sphere_hit_data(s, r, ray_t),
    }
}

impl Surface {
    pub open spec fn wf(self) -> bool {
        match self {
            Surface::Sphere(s) => s.wf(),
        }
    }

    /// The nearest intersection of `ray` with this surface whose parameter
    /// lies strictly inside `ray_t`, or none.
    pub fn hit(&self, ray: &Ray, ray_t: Interval) -> (res: Option<HitRecord>)
        requires
            self.wf(),
            ray.wf(),
        ensures
            hit_result_ok(res, surface_hit_data(*self, *ray, ray_t)),
    {
        match self {
            Surface::Sphere(s) => s.hit(ray, ray_t),
        }
    }
}

/// What scanning the scene left to right returns: each surface is queried
/// against the range narrowed to the closest hit seen so far, so the last
/// answer standing is the nearest hit overall.
pub open spec fn list_hit_data(objs: Seq<Surface>, r: Ray, ray_t: Interval) -> Option<HitData>
    decreases objs.len(),
{
    if objs.len() == 0 {
        None
    } else {
        let prior = list_hit_data(objs.drop_last(), r, ray_t);
        let closest: int = match prior {
            Some(h) => h.t,
            None => ray_t.max as int,
        };
        match surface_hit_data(objs.last(), r, Interval { min: ray_t.min, max: closest as i64 }) {
            Some(h) => Some(h),
            None => prior,
        }
    }
}

/// A hit reported by a surface lies strictly inside the range it was asked
/// about.
pub proof fn lemma_surface_hit_in_range(sf: Surface, r: Ray, ray_t: Interval)
    ensures
        surface_hit_data(sf, r, ray_t) matches Some(h) ==> ray_t.spec_surrounds(h.t),
{
}

/// So does a hit reported by the scan of a whole scene.
pub proof fn lemma_list_hit_in_range(objs: Seq<Surface>, r: Ray, ray_t: Interval)
    ensures
        list_hit_data(objs, r, ray_t) matches Some(h) ==> ray_t.spec_surrounds(h.t),
    decreases objs.len(),
{
    if objs.len() > 0 {
        lemma_list_hit_in_range(objs.drop_last(), r, ray_t);
        let prior = list_hit_data(objs.drop_last(), r, ray_t);
        let closest: int = match prior {
            Some(h) => h.t,
            None => ray_t.max as int,
        };
        lemma_surface_hit_in_range(
            objs.last(),
            r,
            Interval { min: ray_t.min, max: closest as i64 },
        );
    }
}

/// The ray starts strictly outside the surface and points away from it.
pub open spec fn aimed_away(sf: Surface, r: Ray) -> bool {
    match sf {
        Surface::Sphere(s) => crate::sphere::quad_half_b(s, r) >= 0 && crate::sphere::quad_c(s, r)
            > 0,
    }
}

/// A ray aimed away from every surface of a scene, asked about nonnegative
/// parameters, hits nothing.
pub proof fn lemma_scene_aimed_away_misses(objs: Seq<Surface>, r: Ray, ray_t: Interval)
    requires
        r.wf(),
        ray_t.min >= 0,
        forall|i: int| 0 <= i < objs.len() ==> (#[trigger] objs[i]).wf(),
        forall|i: int| 0 <= i < objs.len() ==> aimed_away(#[trigger] objs[i], r),
    ensures
        list_hit_data(objs, r, ray_t) is None,
    decreases objs.len(),
{
    if objs.len() > 0 {
        assert(forall|i: int|
            0 <= i < objs.drop_last().len() ==> #[trigger] objs.drop_last()[i] == objs[i]);
        lemma_scene_aimed_away_misses(objs.drop_last(), r, ray_t);
        let last = objs.last();
        match last {
            Surface::Sphere(s) => {
                crate::sphere::lemma_aimed_away_misses(
                    s,
                    r,
                    Interval { min: ray_t.min, max: ray_t.max },
                );
                assert(Interval { min: ray_t.min, max: ray_t.max } == ray_t);
            },
        }
    }
}

/// The scan over a scene agrees with querying every member independently
/// against the full range and keeping a minimum-parameter hit: a reported
/// hit is some member's own hit and no member's hit is nearer, and a miss
/// means every member missed.
pub proof fn lemma_list_hit_is_nearest(objs: Seq<Surface>, r: Ray, ray_t: Interval)
    requires
        r.wf(),
        forall|i: int| 0 <= i < objs.len() ==> (#[trigger] objs[i]).wf(),
    ensures
        match list_hit_data(objs, r, ray_t) {
            Some(h) => (exists|i: int|
                0 <= i < objs.len() && #[trigger] surface_hit_data(objs[i], r, ray_t) == Some(h))
                && (forall|i: int|
                0 <= i < objs.len() ==> match #[trigger] surface_hit_data(objs[i], r, ray_t) {
                    Some(h2) => h2.t >= h.t,
                    None => true,
                }),
            None => forall|i: int|
                0 <= i < objs.len() ==> #[trigger] surface_hit_data(objs[i], r, ray_t) is None,
        },
    decreases objs.len(),
{
    if objs.len() > 0 {
        let prefix = objs.drop_last();
        let n: int = objs.len() - 1;
        lemma_list_hit_is_nearest(prefix, r, ray_t);
        lemma_list_hit_in_range(prefix, r, ray_t);
        assert forall|i: int| 0 <= i < n implies #[trigger] surface_hit_data(objs[i], r, ray_t)
            == surface_hit_data(prefix[i], r, ray_t) by {
            assert(prefix[i] == objs[i]);
        }
        assert(objs[n] == objs.last());
        let prior = list_hit_data(prefix, r, ray_t);
        match prior {
            None => {
                assert(Interval { min: ray_t.min, max: (ray_t.max as int) as i64 } == ray_t);
                match list_hit_data(objs, r, ray_t) {
                    Some(h) => {
                        assert(surface_hit_data(objs[n], r, ray_t) == Some(h));
                        assert forall|i: int|
                            0 <= i < objs.len() implies match #[trigger] surface_hit_data(
                            objs[i],
                            r,
                            ray_t,
                        ) {
                            Some(h2) => h2.t >= h.t,
                            None => true,
                        } by {
                            if i < n {
                                assert(surface_hit_data(prefix[i], r, ray_t) is None);
                            }
                        }
                    },
                    None => {
                        assert forall|i: int|
                            0 <= i < objs.len() implies #[trigger] surface_hit_data(
                            objs[i],
                            r,
                            ray_t,
                        ) is None by {
                            if i < n {
                                assert(surface_hit_data(prefix[i], r, ray_t) is None);
                            } else {
                                assert(surface_hit_data(objs[n], r, ray_t) is None);
                            }
                        }
                    },
                }
            },
            Some(hp) => {
                match objs.last() {
                    Surface::Sphere(sp) => {
                        crate::sphere::lemma_hit_narrowed(sp, r, ray_t, hp.t as i64);
                    },
                }
                let narrowed = surface_hit_data(
                    objs.last(),
                    r,
                    Interval { min: ray_t.min, max: hp.t as i64 },
                );
                match list_hit_data(objs, r, ray_t) {
                    Some(h) => {
                        if narrowed is Some {
                            assert(h == narrowed->0);
                            assert(surface_hit_data(objs[n], r, ray_t) == Some(h) && h.t < hp.t);
                            assert forall|i: int|
                                0 <= i < objs.len() implies match #[trigger] surface_hit_data(
                                objs[i],
                                r,
                                ray_t,
                            ) {
                                Some(h2) => h2.t >= h.t,
                                None => true,
                            } by {
                                if i < n {
                                    assert(surface_hit_data(objs[i], r, ray_t)
                                        == surface_hit_data(prefix[i], r, ray_t));
                                }
                            }
                        } else {
                            assert(h == hp);
                            let wi = choose|i: int|
                                0 <= i < prefix.len() && #[trigger] surface_hit_data(
                                    prefix[i],
                                    r,
                                    ray_t,
                                ) == Some(hp);
                            assert(surface_hit_data(objs[wi], r, ray_t) == Some(hp));
                            assert forall|i: int|
                                0 <= i < objs.len() implies match #[trigger] surface_hit_data(
                                objs[i],
                                r,
                                ray_t,
                            ) {
                                Some(h2) => h2.t >= h.t,
                                None => true,
                            } by {
                                if i < n {
                                    assert(surface_hit_data(objs[i], r, ray_t)
                                        == surface_hit_data(prefix[i], r, ray_t));
                                } else {
                                    assert(match surface_hit_data(objs[n], r, ray_t) {
                                        Some(h2) => h2.t >= hp.t,
                                        None => true,
                                    });
                                }
                            }
                        }
                    },
                    None => {},
                }
            },
        }
    }
}

/// An empty scene reports no hit, whatever the ray and range.
pub proof fn lemma_empty_scene_hits_nothing(objs: Seq<Surface>, r: Ray, ray_t: Interval)
    requires
        objs.len() == 0,
    ensures
        list_hit_data(objs, r, ray_t) is None,
{
}

/// An aggregate surface: a scene owning its members, scanned linearly.
pub struct HittableList {
    pub objects: Vec<Surface>,
}

impl HittableList {
    pub open spec fn wf(self) -> bool {
        forall|i: int| 0 <= i < self.objects@.len() ==> (#[trigger] self.objects@[i]).wf()
    }

    pub fn new() -> (r: Self)
        ensures
            r.objects@ =~= Seq::<Surface>::empty(),
            r.wf(),
    {
        HittableList { objects: Vec::new() }
    }

    pub fn clear(&mut self)
        ensures
            final(self).objects@ =~= Seq::<Surface>::empty(),
            final(self).wf(),
    {
        self.objects.clear();
    }

    pub fn add(&mut self, object: Surface)
        ensures
            final(self).objects@ =~= old(self).objects@.push(object),
    {
        self.objects.push(object);
    }

    /// The nearest intersection across all owned surfaces whose parameter
    /// lies strictly inside `ray_t`, or none.
    pub fn hit(&self, ray: &Ray, ray_t: Interval) -> (res: Option<HitRecord>)
        requires
            self.wf(),
            ray.wf(),
        ensures
            hit_result_ok(res, list_hit_data(self.objects@, *ray, ray_t)),
    {
        let mut hit_option: Option<HitRecord> = None;
        let mut closest_so_far: i64 = ray_t.max;
        let mut i: usize = 0;
        while i < self.objects.len()
            invariant
                self.wf(),
                ray.wf(),
                0 <= i <= self.objects.len(),
                hit_result_ok(hit_option, list_hit_data(self.objects@.take(i as int), *ray, ray_t)),
                match list_hit_data(self.objects@.take(i as int), *ray, ray_t) {
                    Some(h) => closest_so_far == h.t && ray_t.spec_surrounds(h.t),
                    None => closest_so_far == ray_t.max,
                },
            decreases self.objects.len() - i,
        {
            let object = self.objects[i];
            let res = object.hit(ray, Interval { min: ray_t.min, max: closest_so_far });
            proof {
                assert(self.objects@.take(i + 1).drop_last() =~= self.objects@.take(i as int));
                assert(self.objects@.take(i + 1).last() == self.objects@[i as int]);
                lemma_surface_hit_in_range(
                    self.objects@[i as int],
                    *ray,
                    Interval { min: ray_t.min, max: closest_so_far },
                );
            }
            if let Some(hit_record) = res {
                closest_so_far = hit_record.t;
                hit_option = Some(hit_record);
            }
            i = i + 1;
        }
        proof {
            assert(self.objects@.take(self.objects@.len() as int) =~= self.objects@);
        }
        hit_option
    }
}

} // verus!
