//! The recursive light-transport estimate of the colour a ray carries back.
use crate::camera::{in_unit_disk, Camera};
use crate::fixed::{
    div_floor, fadd, fdiv, floor_div, fmul, fsqrt, fx_div, fx_mul, fx_sqrt, in_range, sat, HALF,
    LIM, ONE,
};
use crate::hittable::{
    lemma_hit_shrink, lemma_scan_nearest, scan, HitRecord, Hittable, HittableList, Hittables,
};
use crate::material::{Draw, Material, Materials};
use crate::ray::Ray;
use crate::vec::{prod_all, sum_all, Colour, Vec};
use vstd::prelude::*;

verus! {

/// The nearest distance at which a hit counts, against self-intersection (0.001).
pub const T_MIN: i64 = 65;

pub open spec fn black() -> Colour {
    Vec { x: 0, y: 0, z: 0 }
}

/// The sky: white blended toward light blue as the unit direction turns up.
pub open spec fn background(dir: Vec) -> Colour {
    let unit = dir.unit_spec();
    let t = fx_mul(HALF as int, sat(unit.y + ONE));
    let white = Vec { x: ONE as i64, y: ONE as i64, z: ONE as i64 };
    let blue = Vec { x: HALF, y: 45875, z: ONE as i64 };
    white.scale(sat(ONE - t)).plus(blue.scale(t))
}

pub open spec fn all_draws_wf(draws: Seq<Draw>) -> bool {
    forall|i: int| 0 <= i < draws.len() ==> (#[trigger] draws[i]).wf()
}

/// The colour that `r` carries back with `depth` bounces left; the bounce made
/// with `d` bounces left consumes `draws[d - 1]`.
pub open spec fn colour_spec(r: Ray, objs: Seq<Hittables>, depth: int, draws: Seq<Draw>) -> Colour
    decreases depth,
{
    if depth <= 0 {
        black()
    } else {
        match scan(objs, r, T_MIN as int, LIM as int) {
            Some(rec) => {
                let (ok, att, scattered) = rec.mat.scatter_spec(
                    r,
                    rec,
                    draws[depth - 1],
                    black(),
                    Ray { orig: black(), dir: black() },
                );
                if ok {
                    att.times(colour_spec(scattered, objs, depth - 1, draws))
                } else {
                    black()
                }
            },
            None => if r.dir.is_zero() {
                black()
            } else {
                background(r.dir)
            },
        }
    }
}

fn background_exec(dir: &Vec) -> (c: Colour)
    requires
        dir.wf(),
        !dir.is_zero(),
    ensures
        c == background(*dir),
        c.wf(),
{
    let unit = dir.unit();
    let t = fmul(HALF, fadd(unit.y, ONE));
    let white = Vec { x: ONE, y: ONE, z: ONE };
    let blue = Vec { x: HALF, y: 45875, z: ONE };
    let far = blue.mulf(t);
    let c = white.mulf(fadd(ONE, -t)).add(&[far]);
    proof {
        reveal_with_fuel(sum_all, 2);
        assert(seq![far].drop_last() =~= Seq::<Vec>::empty());
    }
    c
}

/// The colour that `r` carries back from `world` within `depth` bounces: black
/// once the bounces are spent or where a surface absorbs the ray, the sky where
/// the ray escapes, and otherwise the attenuation times the colour of the
/// scattered ray.
pub fn ray_colour(r: &Ray, world: &HittableList, depth: i32, draws: &[Draw]) -> (c: Colour)
    requires
        r.wf(),
        world.wf(),
        depth <= draws@.len(),
        all_draws_wf(draws@),
    ensures
        c == colour_spec(*r, world.objects@, depth as int, draws@),
        c.wf(),
        depth <= 0 ==> c == black(),
        depth > 0 && world.objects@.len() == 0 && !r.dir.is_zero() ==> c == background(r.dir),
    decreases depth,
{
    let zero = Vec { x: 0, y: 0, z: 0 };
    if depth <= 0 {
        return zero;
    }
    let mut rec = HitRecord { p: zero, n: zero, mat: Materials::MaterialNone, t: 0, front_face: false };
    if world.hit(r, T_MIN, LIM, &mut rec) {
        proof {
            lemma_scan_nearest(world.objects@, *r, T_MIN as int, LIM as int);
            let i = choose|i: int|
                0 <= i < world.objects@.len() && #[trigger] world.objects@[i].hit_at(
                    *r,
                    T_MIN as int,
                    LIM as int,
                ) == Some(rec);
            lemma_hit_shrink(world.objects@[i], *r, T_MIN as int, LIM as int, LIM as int);
        }
        let mut scattered = Ray { orig: zero, dir: zero };
        let mut att = zero;
        let k: usize = (depth - 1) as usize;
        if rec.mat.scatter(r, &rec, &draws[k], &mut att, &mut scattered) {
            let rest = ray_colour(&scattered, world, depth - 1, draws);
            let c = att.mul(&[rest]);
            proof {
                reveal_with_fuel(prod_all, 2);
                assert(seq![rest].drop_last() =~= Seq::<Vec>::empty());
            }
            return c;
        }
        return zero;
    }
    if r.dir.near_zero() {
        return zero;
    }
    background_exec(&r.dir)
}

/// The random values that one camera sample of a pixel consumes: the jitter
/// within the pixel (each in `[0, 1)`), a point of the unit disk for the lens,
/// and one draw per bounce.
pub struct PixelSample {
    pub du: i64,
    pub dv: i64,
    pub disk: Vec,
    pub draws: std::vec::Vec<Draw>,
}

impl PixelSample {
    pub open spec fn wf(self, depth: int) -> bool {
        &&& 0 <= self.du < ONE && 0 <= self.dv < ONE
        &&& self.disk.wf() && in_unit_disk(self.disk)
        &&& depth <= self.draws@.len()
        &&& all_draws_wf(self.draws@)
    }
}

/// What the pixel functions ask of the image: at least two pixels a side, and
/// coordinates in range.
pub open spec fn image_ok(i: int, j: int, width: int, height: int) -> bool {
    2 <= width <= 16384 && 2 <= height <= 16384 && 0 <= i < width && 0 <= j < height
}

/// The ray of the camera sample `s` at pixel `(i, j)`, whose image coordinates
/// run from 0 at the left and bottom edges to 1 at the right and top.
pub open spec fn sample_ray(cam: Camera, i: int, j: int, width: int, height: int, s: PixelSample) -> Ray {
    let u = fx_div(sat(i * ONE + s.du), (width - 1) * ONE);
    let v = fx_div(sat(j * ONE + s.dv), (height - 1) * ONE);
    cam.ray_spec(u, v, s.disk)
}

/// The sum of the colours of the first `k` samples.
pub open spec fn pixel_sum(
    cam: Camera,
    objs: Seq<Hittables>,
    i: int,
    j: int,
    width: int,
    height: int,
    depth: int,
    samples: Seq<PixelSample>,
    k: int,
) -> Colour
    decreases k,
{
    if k <= 0 {
        black()
    } else {
        let s = samples[k - 1];
        pixel_sum(cam, objs, i, j, width, height, depth, samples, k - 1).plus(
            colour_spec(sample_ray(cam, i, j, width, height, s), objs, depth, s.draws@),
        )
    }
}

/// The sum over `samples` of the colours that the camera's rays through pixel
/// `(i, j)` carry back from `world`.
pub fn pixel_colour(
    cam: &Camera,
    world: &HittableList,
    i: i64,
    j: i64,
    width: i64,
    height: i64,
    depth: i32,
    samples: &[PixelSample],
) -> (c: Colour)
    requires
        cam.wf(),
        world.wf(),
        image_ok(i as int, j as int, width as int, height as int),
        forall|k: int| 0 <= k < samples@.len() ==> (#[trigger] samples@[k]).wf(depth as int),
    ensures
        c == pixel_sum(
            *cam,
            world.objects@,
            i as int,
            j as int,
            width as int,
            height as int,
            depth as int,
            samples@,
            samples@.len() as int,
        ),
        c.wf(),
{
    let mut c = Vec { x: 0, y: 0, z: 0 };
    let mut k: usize = 0;
    while k < samples.len()
        invariant
            k <= samples@.len(),
            cam.wf(),
            world.wf(),
            image_ok(i as int, j as int, width as int, height as int),
            forall|m: int| 0 <= m < samples@.len() ==> (#[trigger] samples@[m]).wf(depth as int),
            c.wf(),
            c == pixel_sum(
                *cam,
                world.objects@,
                i as int,
                j as int,
                width as int,
                height as int,
                depth as int,
                samples@,
                k as int,
            ),
        decreases samples@.len() - k,
    {
        let s = &samples[k];
        assert(s.wf(depth as int));
        let u = fdiv(fadd(i * ONE, s.du), (width - 1) * ONE);
        let v = fdiv(fadd(j * ONE, s.dv), (height - 1) * ONE);
        let r = cam.get_ray(u, v, &s.disk);
        let col = ray_colour(&r, world, depth, s.draws.as_slice());
        c = c.add(&[col]);
        proof {
            reveal_with_fuel(sum_all, 2);
            assert(seq![col].drop_last() =~= Seq::<Vec>::empty());
        }
        k += 1;
    }
    c
}

/// With no bounces allowed, the samples of a pixel sum to black.
pub proof fn lemma_no_bounces_sum(
    cam: Camera,
    objs: Seq<Hittables>,
    i: int,
    j: int,
    width: int,
    height: int,
    depth: int,
    samples: Seq<PixelSample>,
    k: int,
)
    requires
        depth <= 0,
    ensures
        pixel_sum(cam, objs, i, j, width, height, depth, samples, k) == black(),
    decreases k,
{
    if k > 0 {
        lemma_no_bounces_sum(cam, objs, i, j, width, height, depth, samples, k - 1);
    }
}

/// With no bounces allowed every pixel is black: its samples sum to black, and
/// black turns into the bytes `(0, 0, 0)` whatever the number of samples.
pub proof fn lemma_no_bounces_black(
    cam: Camera,
    objs: Seq<Hittables>,
    i: int,
    j: int,
    width: int,
    height: int,
    depth: int,
    samples: Seq<PixelSample>,
    n: int,
)
    requires
        depth <= 0,
        n >= 1,
    ensures
        pixel_sum(cam, objs, i, j, width, height, depth, samples, samples.len() as int) == black(),
        channel_byte(0, n) == 0,
{
    lemma_no_bounces_sum(cam, objs, i, j, width, height, depth, samples, samples.len() as int);
    assert(fx_sqrt(div_floor(0, n)) == 0);
}

/// In a scene with no objects, a ray with a direction and at least one bounce
/// left shows the sky in that direction.
pub proof fn lemma_empty_scene_sky(r: Ray, depth: int, draws: Seq<Draw>)
    requires
        depth >= 1,
        !r.dir.is_zero(),
    ensures
        colour_spec(r, Seq::empty(), depth, draws) == background(r.dir),
{
    assert(scan(Seq::<Hittables>::empty(), r, T_MIN as int, LIM as int) is None);
}

/// 0.999, the brightest a channel may be before it is scaled to 256 levels.
pub const BRIGHTEST: i64 = 65470;

/// The byte for a channel whose samples sum to `sum` over `n` samples: their
/// mean, gamma-corrected by a square root, clamped to `[0, 0.999]` and scaled
/// to 256 levels.
pub open spec fn channel_byte(sum: int, n: int) -> int {
    let g = fx_sqrt(div_floor(sum, n));
    let g = if g < BRIGHTEST {
        g
    } else {
        BRIGHTEST as int
    };
    g / 256
}

fn channel(sum: i64, n: i64) -> (b: i64)
    requires
        in_range(sum as int),
        1 <= n <= LIM,
    ensures
        b == channel_byte(sum as int, n as int),
        0 <= b <= 255,
{
    let q = floor_div(sum as i128, n as i128);
    proof {
        vstd::arithmetic::div_mod::lemma_div_is_ordered(sum as int, LIM as int, n as int);
        vstd::arithmetic::div_mod::lemma_div_is_ordered(-LIM as int, sum as int, n as int);
        vstd::arithmetic::div_mod::lemma_div_is_ordered_by_denominator(LIM as int, 1, n as int);
        assert((-LIM as int) / (n as int) >= -LIM) by (nonlinear_arith)
            requires
                1 <= n <= LIM,
        ;
    }
    let g = fsqrt(q as i64);
    let g = if g < BRIGHTEST {
        g
    } else {
        BRIGHTEST
    };
    g / 256
}

/// The three bytes of a pixel whose `n_samples` samples sum to `c`.
pub fn colour_bytes(c: &Colour, n_samples: i64) -> (rgb: (i64, i64, i64))
    requires
        c.wf(),
        1 <= n_samples <= LIM,
    ensures
        rgb.0 == channel_byte(c.x as int, n_samples as int),
        rgb.1 == channel_byte(c.y as int, n_samples as int),
        rgb.2 == channel_byte(c.z as int, n_samples as int),
{
    (channel(c.x, n_samples), channel(c.y, n_samples), channel(c.z, n_samples))
}

} // verus!
