use raytrace::dielectric::Dielectric;
use raytrace::fixed::ONE;
use raytrace::hittable::HitRecord;
use raytrace::lambertian::Lambertian;
use raytrace::material::{Draw, Material, Materials};
use raytrace::metal::Metal;
use raytrace::ray::Ray;
use raytrace::sample::ball_candidate;
use raytrace::vec::Vec;

fn v(x: i64, y: i64, z: i64) -> Vec {
    Vec { x, y, z }
}

fn zero() -> Vec {
    v(0, 0, 0)
}

fn record(n: Vec, front_face: bool) -> HitRecord {
    HitRecord { p: v(ONE, 2 * ONE, 0), n, mat: Materials::MaterialNone, t: ONE, front_face }
}

/// A reproducible stream of points strictly inside the unit ball.
struct Points(u64);

impl Points {
    fn next_coord(&mut self) -> i64 {
        self.0 = self.0.wrapping_mul(6364136223846793005).wrapping_add(1442695040888963407);
        ((self.0 >> 33) % (2 * ONE as u64)) as i64 - ONE
    }

    fn next(&mut self) -> Vec {
        loop {
            let p = v(self.next_coord(), self.next_coord(), self.next_coord());
            if p.len_sqrd() < ONE && !p.near_zero() {
                return p;
            }
        }
    }
}

#[test]
fn lambertian_always_scatters_into_the_hemisphere() {
    let mat = Lambertian { albedo: v(ONE / 2, ONE / 4, ONE) };
    let n = v(0, ONE, 0);
    let rec = record(n, true);
    let incoming = Ray { orig: zero(), dir: v(0, -ONE, 0) };
    let mut points = Points(7);
    for _ in 0..10000 {
        let draw = Draw { sphere: points.next(), uniform: 0 };
        let (mut att, mut sc) = (zero(), Ray { orig: zero(), dir: zero() });
        assert!(mat.scatter(&incoming, &rec, &draw, &mut att, &mut sc));
        assert_eq!(att, mat.albedo);
        assert_eq!(sc.orig, rec.p);
        assert!(sc.dir.dot(&n) >= 0, "{:?}", sc.dir);
    }
}

#[test]
fn lambertian_falls_back_to_the_normal() {
    let mat = Lambertian { albedo: v(ONE, ONE, ONE) };
    let n = v(0, ONE, 0);
    let rec = record(n, true);
    let incoming = Ray { orig: zero(), dir: v(0, -ONE, 0) };
    let draw = Draw { sphere: v(0, -ONE / 2, 0), uniform: 0 };
    let (mut att, mut sc) = (zero(), Ray { orig: zero(), dir: zero() });
    assert!(mat.scatter(&incoming, &rec, &draw, &mut att, &mut sc));
    assert_eq!(sc.dir, n);
}

#[test]
fn metal_without_fuzz_is_a_mirror() {
    let mat = Metal { albedo: v(ONE, ONE / 2, 0), fuzz: 0 };
    let n = v(0, ONE, 0);
    let rec = record(n, true);
    let incoming = Ray { orig: zero(), dir: v(ONE, -ONE, 0) };
    let mut points = Points(11);
    for _ in 0..100 {
        let draw = Draw { sphere: points.next(), uniform: 0 };
        let (mut att, mut sc) = (zero(), Ray { orig: zero(), dir: zero() });
        assert!(mat.scatter(&incoming, &rec, &draw, &mut att, &mut sc));
        assert_eq!(att, mat.albedo);
        assert_eq!(sc.dir, incoming.dir.unit().reflect(&n));
        assert_eq!(sc.dir, v(46340, 46341, 0));
    }
}

#[test]
fn metal_absorbs_reflections_below_the_surface() {
    let mat = Metal { albedo: v(ONE, ONE, ONE), fuzz: ONE };
    let n = v(0, ONE, 0);
    let rec = record(n, true);
    let incoming = Ray { orig: zero(), dir: v(ONE, -ONE, 0) };
    let draw = Draw { sphere: v(0, -60000, 0), uniform: 0 };
    let (mut att, mut sc) = (zero(), Ray { orig: zero(), dir: zero() });
    assert!(!mat.scatter(&incoming, &rec, &draw, &mut att, &mut sc));
    assert_eq!(sc.dir, v(46340, 46341 - 60000, 0));
    let draw = Draw { sphere: v(0, -40000, 0), uniform: 0 };
    assert!(mat.scatter(&incoming, &rec, &draw, &mut att, &mut sc));
}

#[test]
fn dielectric_of_index_one_does_not_bend() {
    let mat = Dielectric { ir: ONE };
    let n = v(0, 0, ONE);
    let rec = record(n, true);
    let incoming = Ray { orig: zero(), dir: v(0, 0, -3 * ONE) };
    for uniform in [0, ONE / 2, ONE - 1] {
        let draw = Draw { sphere: v(1, 0, 0), uniform };
        let (mut att, mut sc) = (zero(), Ray { orig: zero(), dir: zero() });
        assert!(mat.scatter(&incoming, &rec, &draw, &mut att, &mut sc));
        assert_eq!(att, v(ONE, ONE, ONE));
        assert_eq!(sc.dir, v(0, 0, -ONE));
    }
    let slanted = Ray { orig: zero(), dir: v(ONE, 0, -ONE) };
    let draw = Draw { sphere: v(1, 0, 0), uniform: ONE - 1 };
    let (mut att, mut sc) = (zero(), Ray { orig: zero(), dir: zero() });
    assert!(mat.scatter(&slanted, &rec, &draw, &mut att, &mut sc));
    let u = slanted.dir.unit();
    assert!((sc.dir.x - u.x).abs() <= 4 && sc.dir.y == 0 && (sc.dir.z - u.z).abs() <= 4, "{:?}", sc.dir);
}

#[test]
fn dielectric_reflects_when_refraction_is_impossible() {
    let mat = Dielectric { ir: 3 * ONE / 2 };
    let n = v(0, -ONE, 0);
    let rec = record(n, false);
    let grazing = Ray { orig: zero(), dir: v(ONE, ONE / 4, 0) };
    let draw = Draw { sphere: v(1, 0, 0), uniform: ONE - 1 };
    let (mut att, mut sc) = (zero(), Ray { orig: zero(), dir: zero() });
    assert!(mat.scatter(&grazing, &rec, &draw, &mut att, &mut sc));
    assert_eq!(sc.dir, grazing.dir.unit().reflect(&n));
}

#[test]
fn dielectric_reflectance_follows_the_draw() {
    let mat = Dielectric { ir: 3 * ONE / 2 };
    let n = v(0, ONE, 0);
    let rec = record(n, true);
    let slanted = Ray { orig: zero(), dir: v(4 * ONE, -ONE, 0) };
    let u = slanted.dir.unit();
    let (mut att, mut sc) = (zero(), Ray { orig: zero(), dir: zero() });
    assert!(mat.scatter(&slanted, &rec, &Draw { sphere: v(1, 0, 0), uniform: 0 }, &mut att, &mut sc));
    assert_eq!(sc.dir, u.reflect(&n));
    assert!(mat.scatter(&slanted, &rec, &Draw { sphere: v(1, 0, 0), uniform: ONE - 1 }, &mut att, &mut sc));
    assert_eq!(sc.dir, u.refract(&n, 43690));
    assert!(sc.dir.y < 0);
}

#[test]
fn no_material_absorbs_everything() {
    let rec = record(v(0, ONE, 0), true);
    let incoming = Ray { orig: zero(), dir: v(0, -ONE, 0) };
    let (mut att, mut sc) = (v(1, 2, 3), Ray { orig: v(4, 5, 6), dir: v(7, 8, 9) });
    let draw = Draw { sphere: v(1, 0, 0), uniform: 0 };
    assert!(!Materials::MaterialNone.scatter(&incoming, &rec, &draw, &mut att, &mut sc));
    assert_eq!(att, v(1, 2, 3));
    assert_eq!(sc, Ray { orig: v(4, 5, 6), dir: v(7, 8, 9) });
    let lam = Materials::Lambertian(Lambertian { albedo: v(ONE, 0, 0) });
    assert!(lam.scatter(&incoming, &rec, &draw, &mut att, &mut sc));
    assert_eq!(att, v(ONE, 0, 0));
}

#[test]
fn ball_candidates_inside_and_off_centre() {
    assert_eq!(ball_candidate(1, 2, 3), Some(v(1, 2, 3)));
    assert_eq!(ball_candidate(0, 0, 0), None);
    assert_eq!(ball_candidate(ONE, 0, 0), None);
    assert_eq!(ball_candidate(50000, 40000, 30000), None);
    assert_eq!(ball_candidate(-40000, 30000, 20000), Some(v(-40000, 30000, 20000)));
}
