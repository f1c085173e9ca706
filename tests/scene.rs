use raytrace::fixed::ONE;
use raytrace::hittable::Hittables;
use raytrace::material::Materials;
use raytrace::scene::{random_scene, CellDraw};
use raytrace::vec::Vec;

fn v(x: i64, y: i64, z: i64) -> Vec {
    Vec { x, y, z }
}

fn cells(choose: i64) -> std::vec::Vec<CellDraw> {
    vec![CellDraw { choose, jitter_x: 0, jitter_z: 0, tint_a: v(ONE / 2, ONE / 4, 0), tint_b: v(ONE / 2, ONE / 2, ONE / 2), fuzz: ONE / 2 }; 484]
}

#[test]
fn scene_of_diffuse_cells() {
    let world = random_scene(&cells(0));
    assert_eq!(world.objects.len(), 1 + 483 + 3);
    let Hittables::Sphere(ground) = world.objects[0];
    assert_eq!(ground.c, v(0, -1000 * ONE, 0));
    assert_eq!(ground.r, 1000 * ONE);
    let Hittables::Sphere(first) = world.objects[1];
    assert_eq!(first.c, v(-11 * ONE, 13107, -11 * ONE));
    assert_eq!(first.r, 13107);
    assert!(matches!(first.mat, Materials::Lambertian(l) if l.albedo == v(ONE / 4, ONE / 8, 0)));
    let Hittables::Sphere(last) = world.objects[486];
    assert_eq!(last.c, v(4 * ONE, ONE, 0));
    assert!(matches!(last.mat, Materials::Metal(m) if m.fuzz == 0 && m.albedo == v(45875, 39321, 32768)));
    for obj in world.objects.iter() {
        let Hittables::Sphere(s) = obj;
        assert!(s.c != v(4 * ONE, 13107, 0));
    }
}

#[test]
fn scene_of_metal_and_glass_cells() {
    let world = random_scene(&cells(60000));
    let Hittables::Sphere(s) = world.objects[1];
    assert!(matches!(s.mat, Materials::Metal(m) if m.fuzz == ONE / 4 && m.albedo == v(3 * ONE / 4, 5 * ONE / 8, ONE / 2)));
    let world = random_scene(&cells(ONE - 1));
    let Hittables::Sphere(s) = world.objects[1];
    assert!(matches!(s.mat, Materials::Dielectric(d) if d.ir == 3 * ONE / 2));
}

#[test]
fn jitter_moves_centres_within_the_cell() {
    let mut c = cells(0);
    c[0].jitter_x = ONE / 2;
    c[0].jitter_z = ONE - 1;
    let world = random_scene(&c);
    let Hittables::Sphere(s) = world.objects[1];
    assert_eq!(s.c, v(-11 * ONE + 29491, 13107, -11 * ONE + 58981));
}
