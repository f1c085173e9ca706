use raytrace::camera::init;
use raytrace::fixed::ONE;
use raytrace::hittable::{HittableList, Hittables};
use raytrace::lambertian::Lambertian;
use raytrace::material::{Draw, Materials};
use raytrace::metal::Metal;
use raytrace::ray::Ray;
use raytrace::render::{colour_bytes, pixel_colour, ray_colour, PixelSample};
use raytrace::sphere::Sphere;
use raytrace::vec::Vec;

fn v(x: i64, y: i64, z: i64) -> Vec {
    Vec { x, y, z }
}

fn black() -> Vec {
    v(0, 0, 0)
}

fn two_spheres() -> HittableList {
    let grey = Materials::Lambertian(Lambertian { albedo: v(ONE / 2, ONE / 2, ONE / 2) });
    HittableList {
        objects: vec![
            Hittables::Sphere(Sphere { c: v(0, 0, -ONE), r: ONE / 2, mat: grey }),
            Hittables::Sphere(Sphere { c: v(0, -100 * ONE - ONE / 2, -ONE), r: 100 * ONE, mat: grey }),
        ],
    }
}

fn draws(n: usize) -> std::vec::Vec<Draw> {
    (0..n).map(|k| Draw { sphere: v(ONE / 3, -(k as i64) * 97 - 1, ONE / 5), uniform: (k as i64 * 7919) % ONE }).collect()
}

/// The sky colour for a direction, from its unit vector.
fn sky(dir: &Vec) -> Vec {
    let t = ((dir.unit().y + ONE) as i128 * (ONE / 2) as i128).div_euclid(ONE as i128) as i64;
    let white = (ONE * (ONE - t)).div_euclid(ONE);
    v(white + ((ONE / 2) * t).div_euclid(ONE), white + (45875 * t).div_euclid(ONE), white + t)
}

#[test]
fn no_bounces_leave_every_pixel_black() {
    let world = two_spheres();
    let cam = init(&v(0, 0, 0), &v(0, 0, -ONE), &v(0, ONE, 0), ONE, 2 * ONE, 0, ONE);
    let (w, h) = (8i64, 4i64);
    for j in 0..h {
        for i in 0..w {
            let samples: std::vec::Vec<PixelSample> = (0..3)
                .map(|k| PixelSample { du: k * 1000, dv: k * 3000, disk: v(k * 100, 0, 0), draws: vec![] })
                .collect();
            let c = pixel_colour(&cam, &world, i, j, w, h, 0, &samples);
            assert_eq!(c, black());
            assert_eq!(colour_bytes(&c, 3), (0, 0, 0));
        }
    }
    let r = Ray { orig: v(0, 0, 0), dir: v(0, 0, -ONE) };
    assert_eq!(ray_colour(&r, &world, 0, &[]), black());
    assert_eq!(ray_colour(&r, &world, -3, &[]), black());
}

#[test]
fn empty_scene_shows_the_sky() {
    let world = HittableList { objects: vec![] };
    let cam = init(&v(0, 0, 0), &v(0, 0, -ONE), &v(0, ONE, 0), ONE, 2 * ONE, 0, ONE);
    let (w, h) = (6i64, 5i64);
    for j in 0..h {
        for i in 0..w {
            let s = PixelSample { du: 0, dv: 0, disk: black(), draws: draws(1) };
            let u = ((i * ONE) as i128 * ONE as i128).div_euclid(((w - 1) * ONE) as i128) as i64;
            let t = ((j * ONE) as i128 * ONE as i128).div_euclid(((h - 1) * ONE) as i128) as i64;
            let r = cam.get_ray(u, t, &black());
            let c = pixel_colour(&cam, &world, i, j, w, h, 1, &[s]);
            assert_eq!(c, sky(&r.dir));
            assert_eq!(ray_colour(&r, &world, 1, &draws(1)), sky(&r.dir));
        }
    }
}

#[test]
fn sky_colours_at_the_zenith_and_nadir() {
    let world = HittableList { objects: vec![] };
    let up = Ray { orig: black(), dir: v(0, 5 * ONE, 0) };
    let down = Ray { orig: black(), dir: v(0, -ONE, 0) };
    assert_eq!(ray_colour(&up, &world, 1, &draws(1)), v(ONE / 2, 45875, ONE));
    assert_eq!(ray_colour(&down, &world, 1, &draws(1)), v(ONE, ONE, ONE));
}

#[test]
fn ray_without_direction_carries_no_light() {
    let world = HittableList { objects: vec![] };
    let r = Ray { orig: black(), dir: black() };
    assert_eq!(ray_colour(&r, &world, 5, &draws(5)), black());
}

#[test]
fn one_diffuse_bounce_then_sky() {
    let grey = Materials::Lambertian(Lambertian { albedo: v(ONE / 2, ONE / 4, ONE) });
    let world = HittableList { objects: vec![Hittables::Sphere(Sphere { c: v(0, 0, -3 * ONE), r: ONE, mat: grey })] };
    let r = Ray { orig: black(), dir: v(0, 0, -ONE) };
    let d = vec![Draw { sphere: v(0, ONE / 2, 0), uniform: 0 }];
    let c = ray_colour(&r, &world, 1, &d);
    assert_eq!(c, black());
    let c = ray_colour(&r, &world, 2, &[d[0], d[0]]);
    let bounced = v(0, ONE, ONE);
    let s = sky(&bounced);
    assert_eq!(c, v(s.x / 2, s.y / 4, s.z));
}

#[test]
fn absorbed_rays_are_black() {
    let mirror = Materials::Metal(Metal { albedo: v(ONE, ONE, ONE), fuzz: 2 * ONE });
    let world = HittableList { objects: vec![Hittables::Sphere(Sphere { c: v(0, 0, -3 * ONE), r: ONE, mat: mirror })] };
    let r = Ray { orig: black(), dir: v(0, 0, -ONE) };
    let d = vec![Draw { sphere: v(0, 0, -60000), uniform: 0 }; 3];
    assert_eq!(ray_colour(&r, &world, 3, &d), black());
}

#[test]
fn colour_bytes_apply_gamma_and_clamp() {
    assert_eq!(colour_bytes(&v(100 * ONE, 25 * ONE, 0), 100), (255, 128, 0));
    assert_eq!(colour_bytes(&v(-ONE, 4 * ONE, ONE / 4), 1), (0, 255, 128));
    assert_eq!(colour_bytes(&v(ONE / 16, ONE / 64, 9 * ONE), 1), (64, 32, 255));
    assert_eq!(colour_bytes(&v(9 * ONE, 0, 0), 9), (255, 0, 0));
}
