use raytrace::camera::Camera;
use raytrace::fixed::SCALE;
use raytrace::hittable::{HittableList, Surface};
use raytrace::ray::Ray;
use raytrace::sphere::Sphere;
use raytrace::vec3::Vec3;

const S: i64 = SCALE;

/// The default camera: a 16/9 ratio (in fixed point) and 400 pixels across.
fn default_camera() -> Camera {
    Camera::initialize(16 * S / 9, 400)
}

/// The documented background gradient, computed in floating point from a
/// pixel's ray direction; the library's fixed-point result must land
/// within a couple of quantization steps of it.
fn gradient_reference(dir: (i64, i64, i64)) -> (f64, f64, f64) {
    let (x, y, z) = (dir.0 as f64, dir.1 as f64, dir.2 as f64);
    let len = (x * x + y * y + z * z).sqrt();
    let a = 0.5 * (y / len + 1.0);
    let lerp = |w: f64, s: f64| (1.0 - a) * w + a * s;
    (
        255.999 * lerp(1.0, 0.5),
        255.999 * lerp(1.0, 0.7),
        255.999 * lerp(1.0, 1.0),
    )
}

fn assert_close(actual: (i64, i64, i64), expected: (f64, f64, f64)) {
    assert!((actual.0 as f64 - expected.0).abs() <= 2.0, "{actual:?} vs {expected:?}");
    assert!((actual.1 as f64 - expected.1).abs() <= 2.0, "{actual:?} vs {expected:?}");
    assert!((actual.2 as f64 - expected.2).abs() <= 2.0, "{actual:?} vs {expected:?}");
}

#[test]
fn camera_derives_the_documented_viewport() {
    let cam = default_camera();
    assert_eq!(cam.image_width, 400);
    assert_eq!(cam.image_height, 225);
    assert_eq!((cam.center.x, cam.center.y, cam.center.z), (0, 0, 0));
    assert_eq!((cam.pixel_delta_u.x, cam.pixel_delta_u.y, cam.pixel_delta_u.z), (8_888, 0, 0));
    assert_eq!((cam.pixel_delta_v.x, cam.pixel_delta_v.y, cam.pixel_delta_v.z), (0, -8_888, 0));
    assert_eq!(cam.pixel00_loc.z, -S);
    // Half a pixel step in from the viewport's upper-left corner.
    assert_eq!(cam.pixel00_loc.x, -1_777_777 + 4_444);
    assert_eq!(cam.pixel00_loc.y, S - 4_444);
}

#[test]
fn quantization_follows_the_formula_without_clamping() {
    let full = Vec3::create(S, S, S).write();
    assert_eq!(full, (255, 255, 255));
    let half = Vec3::create(500_000, 0, 2 * S).write();
    // floor(255.999 * 0.5) = 127; no clamping, so 2.0 maps to 511.
    assert_eq!(half, (127, 0, 511));
    let negative = Vec3::create(-S, -500_000, 0).write();
    // Rounded toward zero, as a float-to-integer cast would.
    assert_eq!(negative, (-255, -127, 0));
}

#[test]
fn empty_scene_renders_the_gradient() {
    let cam = default_camera();
    let world = HittableList::new();
    let pixels = cam.render(&world);
    assert_eq!(pixels.len(), 400 * 225);
    // Top-left pixel: evaluate the stated formula at i = 0, j = 0.
    let dir = (cam.pixel00_loc.x, cam.pixel00_loc.y, cam.pixel00_loc.z);
    assert_close(pixels[0], gradient_reference(dir));
    // The blue channel interpolates one with one: full everywhere.
    assert_eq!(pixels[0].2, 255);
    // Rays at the top lean toward the sky tone; the bottom row is whiter.
    let bottom = pixels[224 * 400];
    assert!(bottom.0 > pixels[0].0, "bottom {bottom:?} vs top {:?}", pixels[0]);
}

#[test]
fn single_sphere_covers_the_center_but_not_the_corner() {
    let cam = default_camera();
    let mut world = HittableList::new();
    world.add(Surface::Sphere(Sphere {
        center: Vec3::create(0, 0, -S),
        radius: 500_000,
    }));

    // The ray through the image center hits the sphere head on.
    let i = 200i64;
    let j = 112i64;
    let dir = Vec3::create(
        cam.pixel00_loc.x + cam.pixel_delta_u.x * i,
        cam.pixel00_loc.y + cam.pixel_delta_v.y * j,
        cam.pixel00_loc.z,
    );
    let ray = Ray { origin: cam.center, direction: dir };
    let rec = world.hit(&ray, raytrace::interval::Interval::new(0, i64::MAX)).unwrap();
    assert!(rec.front_face);
    assert!(rec.t > 0);
    // The normal points back along the axis, within a few steps.
    assert!(rec.normal.z > 990_000, "normal.z = {}", rec.normal.z);
    assert!(rec.normal.x.abs() < 10_000 && rec.normal.y.abs() < 10_000);

    // Rendered, the center pixel shows the remapped normal and the corner
    // pixel still shows the background gradient.
    let pixels = cam.render(&world);
    let center = pixels[(j as usize) * 400 + (i as usize)];
    assert!((center.0 - 127).abs() <= 3, "center = {center:?}");
    assert!((center.1 - 127).abs() <= 3, "center = {center:?}");
    assert!(center.2 >= 250, "center = {center:?}");

    let empty = HittableList::new();
    let background = cam.render(&empty);
    assert_eq!(pixels[0], background[0]);
    assert_close(
        pixels[0],
        gradient_reference((cam.pixel00_loc.x, cam.pixel00_loc.y, cam.pixel00_loc.z)),
    );
}

#[test]
fn two_sphere_scene_renders_row_major() {
    // A small ball resting on a very large ground sphere.
    let mut world = HittableList::new();
    world.add(Surface::Sphere(Sphere {
        center: Vec3::create(0, 0, -S),
        radius: 500_000,
    }));
    world.add(Surface::Sphere(Sphere {
        center: Vec3::create(0, -100 * S - 500_000, -S),
        radius: 100 * S,
    }));
    let cam = Camera::initialize(16 * S / 9, 80);
    let pixels = cam.render(&world);
    assert_eq!(pixels.len(), 80 * 45);
    // The top row is sky, the middle of the image is the small sphere, and
    // the bottom rows land on the big "ground" sphere.
    assert!(pixels[0].2 >= 250);
    let middle = pixels[22 * 80 + 40];
    assert!((middle.0 - 127).abs() <= 3 && (middle.1 - 127).abs() <= 3);
    let ground = pixels[44 * 80 + 40];
    // The ground sphere's upward normal shades green-heavy.
    assert!(ground.1 > ground.0);
}
