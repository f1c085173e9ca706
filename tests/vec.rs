use raytrace::fixed::{fdiv, fmul, fsqrt, LIM, ONE};
use raytrace::vec::Vec;

/// The fixed-point value of `v`, rounded down.
fn fx(v: f64) -> i64 {
    (v * ONE as f64).floor() as i64
}

fn v3(x: f64, y: f64, z: f64) -> Vec {
    Vec { x: fx(x), y: fx(y), z: fx(z) }
}

#[test]
fn basic_arithmetic() {
    let v = v3(1.0, 2.0, 3.0);
    let u = v3(4.0, 5.0, 6.0);
    let r = v3(7.0, 8.0, 9.0);

    let mut t = v.add(&[u, r]);
    assert_eq!(t, v3(12.0, 15.0, 18.0));

    t = v.sub(&[u, r]);
    assert_eq!(t, v3(-10.0, -11.0, -12.0));

    t = v.mul(&[u, r]);
    assert_eq!(t, v3(28.0, 80.0, 162.0));

    t = v.div(&[u, r]);
    assert_eq!(t, v3(0.035714286, 0.05, 0.055555556));

    assert_eq!(v.len_sqrd(), fx(14.0));
    assert_eq!(v.len(), fx(3.741657387));

    assert_eq!(v.mulf(fx(2.0)), v3(2.0, 4.0, 6.0));

    assert_eq!(v.divf(fx(2.0)), v3(0.5, 1.0, 1.5));

    assert_eq!(v.dot(&u), fx(32.0));
    assert_eq!(v.unit(), v3(0.26726124, 0.5345225, 0.8017837));
    assert_eq!(v.cross(&u), v3(-3.0, 6.0, -3.0));
}

#[test]
fn scalar_products_round_down() {
    assert_eq!(fmul(-1, ONE / 2), -1);
    assert_eq!(fmul(3 * ONE, ONE / 2), 3 * ONE / 2);
    assert_eq!(fdiv(ONE, 3 * ONE), 21845);
    assert_eq!(fdiv(-ONE, 3 * ONE), -21846);
    assert_eq!(fdiv(ONE, -3 * ONE), -21846);
}

#[test]
fn scalar_results_saturate() {
    assert_eq!(fmul(LIM, 2 * ONE), LIM);
    assert_eq!(fmul(-LIM, 2 * ONE), -LIM);
    assert_eq!(v3(16000.0, 0.0, 0.0).add(&[v3(16000.0, 0.0, 0.0)]).x, LIM);
}

#[test]
fn square_roots() {
    assert_eq!(fsqrt(4 * ONE), 2 * ONE);
    assert_eq!(fsqrt(2 * ONE), 92681);
    assert_eq!(fsqrt(0), 0);
    assert_eq!(fsqrt(-ONE), 0);
}

#[test]
fn unit_vectors_have_length_one() {
    let samples = [
        v3(1.0, 2.0, 3.0),
        v3(-0.5, 0.25, 7.0),
        v3(1000.0, -1.0, 0.001),
        v3(0.01, 0.02, -0.03),
        v3(-3.0, -4.0, 0.0),
        v3(0.0, 0.0, -2.5),
    ];
    for v in samples.iter() {
        // The components of a short vector carry few digits, so its direction
        // is known less precisely.
        let l = v.unit().len();
        assert!((l - ONE).abs() <= 4 + ONE / v.len(), "{:?} gives length {}", v, l);
    }
}

#[test]
fn near_zero_only_for_the_zero_vector() {
    assert!(Vec { x: 0, y: 0, z: 0 }.near_zero());
    assert!(!Vec { x: 0, y: 1, z: 0 }.near_zero());
    assert!(!v3(0.5, 0.0, 0.0).near_zero());
}

#[test]
fn reflect_negates_the_normal_component() {
    let n = v3(0.0, 1.0, 0.0);
    for v in [v3(1.0, -1.0, 0.0), v3(0.3, 2.5, -7.0), v3(-4.0, -0.125, 1.0)].iter() {
        let r = v.reflect(&n);
        assert_eq!(r.dot(&n), -v.dot(&n));
        assert_eq!(r.x, v.x);
        assert_eq!(r.z, v.z);
    }
    let m = v3(1.0, 1.0, 0.0).unit();
    let v = v3(0.5, -2.0, 1.0);
    assert!((v.reflect(&m).dot(&m) + v.dot(&m)).abs() <= 8);
}

#[test]
fn refract_straight_through_with_equal_indices() {
    let d = v3(0.0, 0.0, -1.0);
    let n = v3(0.0, 0.0, 1.0);
    assert_eq!(d.refract(&n, ONE), d);
}

#[test]
fn hemisphere_turns_samples_toward_the_normal() {
    let n = v3(0.0, 1.0, 0.0);
    assert_eq!(v3(0.25, 0.5, 0.0).hemisphere(&n), v3(0.25, 0.5, 0.0));
    assert_eq!(v3(0.25, -0.5, 0.125).hemisphere(&n), v3(-0.25, 0.5, -0.125));
    assert_eq!(v3(0.25, 0.0, 0.0).hemisphere(&n), v3(-0.25, 0.0, 0.0));
}

#[test]
fn short_vectors_normalise_precisely() {
    for v in [Vec { x: 1, y: 1, z: 0 }, Vec { x: 1, y: 0, z: 0 }, Vec { x: -3, y: 2, z: 7 }, Vec { x: 5, y: 5, z: 5 }].iter() {
        let u = v.unit();
        assert!((u.len() - ONE).abs() <= 4, "{:?} gives {:?}", v, u);
    }
    assert_eq!(Vec { x: 1, y: 1, z: 0 }.unit(), Vec { x: 46341, y: 46341, z: 0 });
}

#[test]
fn hemisphere_uses_the_exact_sign() {
    let n = Vec { x: 46341, y: 46341, z: 0 };
    let s = Vec { x: 2, y: -1, z: 0 };
    let h = s.hemisphere(&n);
    assert_eq!(h, s);
    assert!(h.dot(&n) >= 0);
}
