use raytrace::fixed::SCALE;
use raytrace::hittable::{HittableList, Surface};
use raytrace::interval::Interval;
use raytrace::ray::Ray;
use raytrace::sphere::Sphere;
use raytrace::vec3::Vec3;

const S: i64 = SCALE;

fn forward_interval() -> Interval {
    Interval::new(0, i64::MAX)
}

fn sphere_at(z: i64, radius: i64) -> Sphere {
    Sphere { center: Vec3::create(0, 0, z), radius }
}

#[test]
fn sphere_hit_through_center_from_outside() {
    // Origin at the camera, sphere half a unit wide one unit down the axis.
    let s = sphere_at(-S, 500_000);
    let r = Ray { origin: Vec3::zero(), direction: Vec3::create(0, 0, -S) };
    let rec = s.hit(&r, forward_interval()).expect("a ray through the center must hit");
    assert_eq!(rec.t, 500_000);
    assert_eq!((rec.p.x, rec.p.y, rec.p.z), (0, 0, -500_000));
    assert_eq!((rec.normal.x, rec.normal.y, rec.normal.z), (0, 0, S));
    assert!(rec.front_face);
}

#[test]
fn sphere_hit_from_inside_takes_far_root_and_flips_normal() {
    let s = sphere_at(-S, 500_000);
    // Start at the sphere's center, looking further down the axis.
    let r = Ray { origin: Vec3::create(0, 0, -S), direction: Vec3::create(0, 0, -S) };
    let rec = s.hit(&r, forward_interval()).expect("from inside the far root hits");
    assert_eq!(rec.t, 500_000);
    assert!(!rec.front_face);
    // The outward normal points along the ray, so the stored one is flipped.
    assert_eq!((rec.normal.x, rec.normal.y, rec.normal.z), (0, 0, S));
}

#[test]
fn sphere_missed_entirely() {
    let s = sphere_at(-2 * S, 500_000);
    let r = Ray { origin: Vec3::zero(), direction: Vec3::create(0, S, 0) };
    assert!(s.hit(&r, forward_interval()).is_none());
}

#[test]
fn sphere_behind_the_origin_is_not_reported() {
    // The line intersects, but only at negative parameters.
    let s = sphere_at(2 * S, 500_000);
    let r = Ray { origin: Vec3::zero(), direction: Vec3::create(0, 0, -S) };
    assert!(s.hit(&r, forward_interval()).is_none());
}

#[test]
fn interval_bounds_filter_the_roots() {
    let s = sphere_at(-S, 500_000);
    let r = Ray { origin: Vec3::zero(), direction: Vec3::create(0, 0, -S) };
    // Near root at 0.5, far root at 1.5: a cap below both filters everything.
    assert!(s.hit(&r, Interval::new(0, 400_000)).is_none());
    let far = s.hit(&r, Interval::new(600_000, i64::MAX)).unwrap();
    assert_eq!(far.t, 1_500_000);
    assert!(!far.front_face);
}

#[test]
fn list_returns_the_nearest_hit_regardless_of_order() {
    let near = sphere_at(-S, 500_000);
    let far = sphere_at(-2 * S, 500_000);
    let r = Ray { origin: Vec3::zero(), direction: Vec3::create(0, 0, -S) };

    let mut a = HittableList::new();
    a.add(Surface::Sphere(far));
    a.add(Surface::Sphere(near));
    let rec_a = a.hit(&r, forward_interval()).expect("two spheres dead ahead");

    let mut b = HittableList::new();
    b.add(Surface::Sphere(near));
    b.add(Surface::Sphere(far));
    let rec_b = b.hit(&r, forward_interval()).expect("two spheres dead ahead");

    // The scan agrees with the independent minimum: the same record both ways.
    assert_eq!(rec_a, rec_b);
    assert_eq!(rec_a.t, 500_000);

    // And it equals the near sphere's own answer over the full range.
    let direct = near.hit(&r, forward_interval()).unwrap();
    assert_eq!(rec_a, direct);
}

#[test]
fn ray_aimed_away_from_every_sphere_misses() {
    let mut world = HittableList::new();
    world.add(Surface::Sphere(sphere_at(-2 * S, 500_000)));
    world.add(Surface::Sphere(sphere_at(-4 * S, S)));
    // Both spheres sit at negative z; look up the positive axis.
    let r = Ray { origin: Vec3::zero(), direction: Vec3::create(0, 0, S) };
    assert!(world.hit(&r, forward_interval()).is_none());
}

#[test]
fn normal_always_opposes_the_ray() {
    // A skew ray that strikes the sphere well off its axis.
    let s = sphere_at(-2 * S, S);
    let r = Ray { origin: Vec3::create(300_000, 100_000, 0), direction: Vec3::create(300_000, 100_000, -S) };
    let rec = s.hit(&r, forward_interval()).expect("the wide sphere is in the way");
    let d = rec.normal.x as i128 * r.direction.x as i128 + rec.normal.y as i128
        * r.direction.y as i128 + rec.normal.z as i128 * r.direction.z as i128;
    assert!(d <= 0, "normal leans along the ray: {d}");
    assert!(rec.front_face);
}

#[test]
fn cleared_list_matches_a_fresh_one() {
    let r = Ray { origin: Vec3::zero(), direction: Vec3::create(0, 0, -S) };
    let mut world = HittableList::new();
    for k in 1..=5i64 {
        world.add(Surface::Sphere(sphere_at(-k * S, 400_000)));
    }
    assert!(world.hit(&r, forward_interval()).is_some());
    world.clear();
    assert!(world.hit(&r, forward_interval()).is_none());
    let fresh = HittableList::new();
    assert!(fresh.hit(&r, forward_interval()).is_none());
    // Every direction misses an emptied scene, just like a fresh one.
    let up = Ray { origin: Vec3::create(S, S, S), direction: Vec3::create(0, S, 0) };
    assert!(world.hit(&up, forward_interval()).is_none());
    assert!(fresh.hit(&up, forward_interval()).is_none());
}
