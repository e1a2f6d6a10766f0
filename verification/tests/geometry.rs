use raytrace::fixed::SCALE;
use raytrace::interval::Interval;
use raytrace::ray::Ray;
use raytrace::vec3::Vec3;

const S: i64 = SCALE;

#[test]
fn vec3_zero_and_create() {
    let z = Vec3::zero();
    assert_eq!((z.x, z.y, z.z), (0, 0, 0));
    let v = Vec3::create(1, -2, 3);
    assert_eq!((v.x, v.y, v.z), (1, -2, 3));
}

#[test]
fn vec3_add_sub_neg() {
    let a = Vec3::create(1 * S, 2 * S, 3 * S);
    let b = Vec3::create(4 * S, -5 * S, 6 * S);
    let sum = a.add(b);
    assert_eq!((sum.x, sum.y, sum.z), (5 * S, -3 * S, 9 * S));
    let diff = a.sub(b);
    assert_eq!((diff.x, diff.y, diff.z), (-3 * S, 7 * S, -3 * S));
    let n = a.neg();
    assert_eq!((n.x, n.y, n.z), (-1 * S, -2 * S, -3 * S));
}

#[test]
fn vec3_scalar_mul_truncates_toward_zero() {
    let v = Vec3::create(999_999, -999_999, 0);
    let half = v.mul(500_000);
    // 999_999 * 0.5 = 499_999.5, rounded toward zero on both signs.
    assert_eq!((half.x, half.y, half.z), (499_999, -499_999, 0));
}

#[test]
fn vec3_scalar_div() {
    let v = Vec3::create(3 * S, -3 * S, 0);
    let third = v.div(2 * S);
    assert_eq!((third.x, third.y, third.z), (1_500_000, -1_500_000, 0));
    // Division by a plain 3 (three millionths) scales up hugely: 3.0 / 0.000003.
    let w = Vec3::create(3, 0, 0).div(3);
    assert_eq!(w.x, S);
}

#[test]
fn vec3_dot_and_cross() {
    let a = Vec3::create(1 * S, 2 * S, 3 * S);
    let b = Vec3::create(4 * S, 5 * S, 6 * S);
    assert_eq!(a.dot(b), 32 * S);
    let x = Vec3::create(S, 0, 0);
    let y = Vec3::create(0, S, 0);
    let c = x.cross(y);
    assert_eq!((c.x, c.y, c.z), (0, 0, S));
    let d = y.cross(x);
    assert_eq!((d.x, d.y, d.z), (0, 0, -S));
}

#[test]
fn vec3_length_three_four_five() {
    let v = Vec3::create(3 * S, 4 * S, 0);
    assert_eq!(v.length(), 5 * S);
    assert_eq!(v.length_squared(), 25 * S);
}

#[test]
fn vec3_unit_has_unit_length() {
    // The proved law, on a concrete diagonal vector.
    let v = Vec3::create(S, S, S);
    let u = v.unit();
    assert_eq!((u.x, u.y, u.z), (577_350, 577_350, 577_350));
    let len = u.length();
    assert!(S - 4 <= len && len <= S + 1, "unit length was {len}");
    // And on an axis vector it is exact.
    let w = Vec3::create(7 * S, 0, 0).unit();
    assert_eq!((w.x, w.y, w.z), (S, 0, 0));
    assert_eq!(w.length(), S);
}

#[test]
fn interval_contains_and_surrounds() {
    let iv = Interval::new(2, 10);
    // Closed on both ends.
    assert!(iv.contains(2));
    assert!(iv.contains(10));
    assert!(iv.contains(5));
    assert!(!iv.contains(1));
    assert!(!iv.contains(11));
    // Open on both ends: differs from `contains` exactly at the boundary.
    assert!(!iv.surrounds(2));
    assert!(!iv.surrounds(10));
    assert!(iv.surrounds(5));
    assert!(iv.surrounds(3));
    assert!(iv.surrounds(9));
}

#[test]
fn interval_empty_and_universe() {
    let e = Interval::empty();
    assert!(!e.contains(0));
    assert!(!e.contains(i64::MAX));
    assert!(!e.contains(i64::MIN));
    let u = Interval::universe();
    assert!(u.contains(0));
    assert!(u.contains(i64::MAX));
    assert!(u.contains(i64::MIN));
}

#[test]
fn ray_at_parametrizes_the_line() {
    let r = Ray {
        origin: Vec3::create(1 * S, 2 * S, 3 * S),
        direction: Vec3::create(1 * S, 0, -2 * S),
    };
    let p0 = r.at(0);
    assert_eq!((p0.x, p0.y, p0.z), (1 * S, 2 * S, 3 * S));
    let p = r.at(500_000);
    assert_eq!((p.x, p.y, p.z), (1_500_000, 2 * S, 2 * S));
    // Negative parameters walk backwards: the ray is a full line here.
    let q = r.at(-S);
    assert_eq!((q.x, q.y, q.z), (0, 2 * S, 5 * S));
}
