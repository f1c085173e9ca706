use raytrace::fixed::{LIM, ONE};
use raytrace::hittable::{HitRecord, Hittable, HittableList, Hittables};
use raytrace::lambertian::Lambertian;
use raytrace::material::Materials;
use raytrace::ray::Ray;
use raytrace::sphere::Sphere;
use raytrace::vec::Vec;

fn v3(x: i64, y: i64, z: i64) -> Vec {
    Vec { x: x * ONE, y: y * ONE, z: z * ONE }
}

fn blank() -> HitRecord {
    HitRecord { p: v3(0, 0, 0), n: v3(0, 0, 0), mat: Materials::MaterialNone, t: 0, front_face: false }
}

fn ball(c: Vec, r: i64) -> Sphere {
    Sphere { c, r: r * ONE, mat: Materials::Lambertian(Lambertian { albedo: Vec { x: ONE / 2, y: ONE / 2, z: ONE / 2 } }) }
}

const T_MIN: i64 = 65;

#[test]
fn ray_at() {
    let r = Ray { orig: v3(1, 2, 3), dir: v3(4, 5, 6) };
    assert_eq!(r.at(2 * ONE), v3(9, 12, 15));
}

#[test]
fn head_on_hit_at_distance_less_radius() {
    let s = ball(v3(0, 0, -5), 2);
    let r = Ray { orig: v3(0, 0, 0), dir: v3(0, 0, -1) };
    let mut rec = blank();
    assert!(s.hit(&r, T_MIN, LIM, &mut rec));
    assert_eq!(rec.t, 3 * ONE);
    assert_eq!(rec.p, v3(0, 0, -3));
    assert_eq!(rec.n, v3(0, 0, 1));
    assert!(rec.front_face);
    assert_eq!(rec.mat, s.mat);
}

#[test]
fn head_on_hit_along_other_axes() {
    let s = ball(v3(7, 1, 0), 1);
    let r = Ray { orig: v3(-3, 1, 0), dir: v3(1, 0, 0) };
    let mut rec = blank();
    assert!(s.hit(&r, T_MIN, LIM, &mut rec));
    assert_eq!(rec.t, 9 * ONE);
}

#[test]
fn ray_past_the_sphere_misses_and_leaves_record() {
    let s = ball(v3(0, 0, -5), 2);
    let r = Ray { orig: v3(3, 0, 0), dir: v3(0, 0, -1) };
    let mut rec = blank();
    assert!(!s.hit(&r, T_MIN, LIM, &mut rec));
    assert_eq!(rec, blank());
}

#[test]
fn ray_from_inside_hits_far_side_facing_back() {
    let s = ball(v3(0, 0, 0), 2);
    let r = Ray { orig: v3(0, 0, 0), dir: v3(0, 0, -1) };
    let mut rec = blank();
    assert!(s.hit(&r, T_MIN, LIM, &mut rec));
    assert_eq!(rec.t, 2 * ONE);
    assert!(!rec.front_face);
    assert_eq!(rec.n, v3(0, 0, 1));
}

#[test]
fn hits_beyond_the_bound_are_ignored() {
    let s = ball(v3(0, 0, -5), 2);
    let r = Ray { orig: v3(0, 0, 0), dir: v3(0, 0, -1) };
    let mut rec = blank();
    assert!(!s.hit(&r, T_MIN, 2 * ONE, &mut rec));
    assert!(s.hit(&r, 4 * ONE, LIM, &mut rec));
    assert_eq!(rec.t, 7 * ONE);
}

#[test]
fn ray_without_direction_meets_nothing() {
    let s = ball(v3(0, 0, 0), 2);
    let r = Ray { orig: v3(0, 0, 0), dir: v3(0, 0, 0) };
    let mut rec = blank();
    assert!(!s.hit(&r, T_MIN, LIM, &mut rec));
}

#[test]
fn nearest_of_two_overlapping_spheres() {
    let a = ball(v3(0, 0, -5), 2);
    let b = ball(v3(0, 0, -6), 2);
    let r = Ray { orig: v3(0, 0, 0), dir: v3(0, 0, -1) };
    let (mut ra, mut rb) = (blank(), blank());
    assert!(a.hit(&r, T_MIN, LIM, &mut ra));
    assert!(b.hit(&r, T_MIN, LIM, &mut rb));
    let nearest = ra.t.min(rb.t);
    for objects in [vec![Hittables::Sphere(a), Hittables::Sphere(b)], vec![Hittables::Sphere(b), Hittables::Sphere(a)]] {
        let world = HittableList { objects };
        let mut rec = blank();
        assert!(world.hit(&r, T_MIN, LIM, &mut rec));
        assert_eq!(rec.t, nearest);
        assert_eq!(rec, ra);
    }
}

#[test]
fn empty_scene_reports_no_hit() {
    let world = HittableList { objects: vec![] };
    let r = Ray { orig: v3(0, 0, 0), dir: v3(0, 0, -1) };
    let mut rec = blank();
    assert!(!world.hit(&r, T_MIN, LIM, &mut rec));
    assert_eq!(rec, blank());
}
