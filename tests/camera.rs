use raytrace::camera::init;
use raytrace::fixed::ONE;
use raytrace::sample::disk_candidate;
use raytrace::vec::Vec;

fn v(x: i64, y: i64, z: i64) -> Vec {
    Vec { x, y, z }
}

#[test]
fn pinhole_rays_leave_from_look_from() {
    let lf = v(13 * ONE, 2 * ONE, 3 * ONE);
    let cam = init(&lf, &v(0, 0, 0), &v(0, ONE, 0), 11555, 3 * ONE / 2, 0, 10 * ONE);
    assert_eq!(cam.lr, 0);
    for (s, t, disk) in [(0, 0, v(0, 0, 0)), (ONE / 2, ONE / 3, v(ONE / 2, -ONE / 2, 0)), (ONE, ONE, v(-60000, 10000, 0))] {
        assert_eq!(cam.get_ray(s, t, &disk).orig, lf);
    }
}

#[test]
fn lens_offsets_the_origin_within_the_aperture() {
    let lf = v(0, 0, 0);
    let cam = init(&lf, &v(0, 0, -ONE), &v(0, ONE, 0), ONE, 2 * ONE, 2 * ONE, ONE);
    assert_eq!(cam.lr, ONE);
    let r = cam.get_ray(ONE / 2, ONE / 2, &v(ONE / 2, 0, 0));
    assert_eq!(r.orig, v(ONE / 2, 0, 0));
    assert_eq!(r.dir, v(-ONE / 2, 0, -ONE));
}

#[test]
fn camera_basis_and_viewport() {
    let cam = init(&v(0, 0, 0), &v(0, 0, -ONE), &v(0, ONE, 0), ONE, 2 * ONE, 0, ONE);
    assert_eq!(cam.w, v(0, 0, ONE));
    assert_eq!(cam.u, v(ONE, 0, 0));
    assert_eq!(cam.v, v(0, ONE, 0));
    assert_eq!(cam.hori, v(4 * ONE, 0, 0));
    assert_eq!(cam.vert, v(0, 2 * ONE, 0));
    assert_eq!(cam.llc, v(-2 * ONE, -ONE, -ONE));
    let r = cam.get_ray(ONE / 2, ONE / 2, &v(0, 0, 0));
    assert_eq!(r.dir, v(0, 0, -ONE));
}

#[test]
fn lens_points_stay_within_the_radius() {
    let lf = v(0, 0, 0);
    let cam = init(&lf, &v(0, 0, -ONE), &v(0, ONE, 0), ONE, 2 * ONE, ONE, ONE);
    assert_eq!(cam.lr, ONE / 2);
    for (x, y) in [(ONE - 1, 0), (-40000, 40000), (0, -(ONE - 1)), (100, 200)] {
        let disk = disk_candidate(x, y).unwrap();
        let r = cam.get_ray(ONE / 2, ONE / 2, &disk);
        assert!(r.orig.x.abs() <= ONE / 2 && r.orig.y.abs() <= ONE / 2 && r.orig.z == 0, "{:?}", r.orig);
    }
    assert_eq!(disk_candidate(ONE, 0), None);
    assert_eq!(disk_candidate(50000, 50000), None);
}
