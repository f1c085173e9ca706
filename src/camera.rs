//! A thin-lens camera: rays from a disk-shaped aperture through an image plane
//! at the focus distance.
use crate::fixed::{fadd, fdiv, fmul, fx_div, fx_mul, in_range, sat, ONE};
use crate::ray::Ray;
use crate::vec::{abs_spec, diff_all, sum_all, Point, Vec};
use vstd::prelude::*;

verus! {

/// The camera's derived geometry: its origin, the lower-left corner of the
/// image plane, the plane's extents, its basis, and the lens radius.
#[derive(Clone, Copy, Debug, PartialEq, Eq, Structural)]
pub struct Camera {
    pub orig: Point,
    pub llc: Point,
    pub hori: Vec,
    pub vert: Vec,
    pub w: Vec,
    pub u: Vec,
    pub v: Vec,
    pub lr: i64,
}

/// What the camera's construction asks of its parameters: values in range, a
/// look-from point apart from the look-at point, and an up vector that is not
/// along the viewing axis.
pub open spec fn init_ok(lf: Point, la: Point, vup: Vec, tan_half_fov: int, ar: int, ap: int, fd: int) -> bool {
    &&& lf.wf() && la.wf() && vup.wf()
    &&& in_range(tan_half_fov) && in_range(ar) && in_range(ap) && in_range(fd)
    &&& !lf.minus(la).is_zero()
    &&& !vup.cross_spec(lf.minus(la).unit_spec()).is_zero()
}

/// The camera at `lf` looking toward `la` with `vup` up, whose vertical field of
/// view has half-angle tangent `tan_half_fov`, with aspect ratio `ar`,
/// aperture `ap` and focus distance `fd`.
pub open spec fn init_spec(lf: Point, la: Point, vup: Vec, tan_half_fov: int, ar: int, ap: int, fd: int) -> Camera {
    let vh = sat(2 * tan_half_fov);
    let vw = fx_mul(ar, vh);
    let w = lf.minus(la).unit_spec();
    let u = vup.cross_spec(w).unit_spec();
    let v = w.cross_spec(u);
    let hori = u.scale(fx_mul(vw, fd));
    let vert = v.scale(fx_mul(vh, fd));
    let llc = lf.minus(hori.shrink(2 * ONE)).minus(vert.shrink(2 * ONE)).minus(w.scale(fd));
    Camera { orig: lf, llc, hori, vert, w, u, v, lr: fx_div(ap, 2 * ONE) as i64 }
}

pub fn init(lf: &Point, la: &Point, vup: &Vec, tan_half_fov: i64, ar: i64, ap: i64, fd: i64) -> (c: Camera)
    requires
        init_ok(*lf, *la, *vup, tan_half_fov as int, ar as int, ap as int, fd as int),
    ensures
        c == init_spec(*lf, *la, *vup, tan_half_fov as int, ar as int, ap as int, fd as int),
        c.wf(),
        ONE - 4 <= c.w.len_spec() <= ONE + 4,
        ONE - 4 <= c.u.len_spec() <= ONE + 4,
{
    let vh = fadd(tan_half_fov, tan_half_fov);
    let vw = fmul(ar, vh);
    let gap = lf.sub(&[*la]);
    proof {
        reveal_with_fuel(diff_all, 2);
        assert(seq![*la].drop_last() =~= Seq::<Vec>::empty());
    }
    let w = gap.unit();
    let u = vup.cross(&w).unit();
    let v = w.cross(&u);
    let hori = u.mulf(fmul(vw, fd));
    let vert = v.mulf(fmul(vh, fd));
    let a = hori.divf(2 * ONE);
    let b = vert.divf(2 * ONE);
    let d = w.mulf(fd);
    let llc = lf.sub(&[a, b, d]);
    let lr = fdiv(ap, 2 * ONE);
    proof {
        reveal_with_fuel(diff_all, 4);
        assert(seq![a, b, d].drop_last() =~= seq![a, b]);
        assert(seq![a, b].drop_last() =~= seq![a]);
        assert(seq![a].drop_last() =~= Seq::<Vec>::empty());
    }
    Camera { orig: *lf, llc, hori, vert, w, u, v, lr }
}

impl Camera {
    pub open spec fn wf(self) -> bool {
        &&& self.orig.wf() && self.llc.wf() && self.hori.wf() && self.vert.wf()
        &&& self.w.wf() && self.u.wf() && self.v.wf() && in_range(self.lr as int)
    }

    /// The lens point for the unit-disk sample `disk`, in lens coordinates.
    pub open spec fn lens(self, disk: Vec) -> Vec {
        disk.scale(self.lr as int)
    }

    /// The lens offset for the unit-disk sample `disk`.
    pub open spec fn offset(self, disk: Vec) -> Vec {
        let rd = self.lens(disk);
        self.u.scale(rd.x as int).plus(self.v.scale(rd.y as int))
    }

    /// The ray through image coordinates `(s, t)` from the lens point `disk` picks.
    pub open spec fn ray_spec(self, s: int, t: int, disk: Vec) -> Ray {
        let offset = self.offset(disk);
        Ray {
            orig: self.orig.plus(offset),
            dir: self.llc.plus(self.hori.scale(s)).plus(self.vert.scale(t)).plus(self.orig.neg()).plus(
                offset.neg(),
            ),
        }
    }

    /// The ray through the image coordinates `(s, t)` (each from 0 to 1), leaving
    /// the lens at the point that the unit-disk sample `disk` picks.
    pub fn get_ray(&self, s: i64, t: i64, disk: &Vec) -> (r: Ray)
        requires
            self.wf(),
            in_range(s as int),
            in_range(t as int),
            disk.wf(),
            in_unit_disk(*disk),
        ensures
            r == self.ray_spec(s as int, t as int, *disk),
            r.wf(),
            -abs_spec(self.lr as int) <= self.lens(*disk).x <= abs_spec(self.lr as int),
            -abs_spec(self.lr as int) <= self.lens(*disk).y <= abs_spec(self.lr as int),
    {
        proof {
            lemma_lens_coordinate(disk.x as int, disk.y as int, self.lr as int);
            lemma_lens_coordinate(disk.y as int, disk.x as int, self.lr as int);
        }
        let rd = disk.mulf(self.lr);
        let vy = self.v.mulf(rd.y);
        let offset = self.u.mulf(rd.x).add(&[vy]);
        let a = self.hori.mulf(s);
        let b = self.vert.mulf(t);
        let c = self.orig.mulf(-ONE);
        let d = offset.mulf(-ONE);
        let r = Ray { orig: self.orig.add(&[offset]), dir: self.llc.add(&[a, b, c, d]) };
        proof {
            reveal_with_fuel(sum_all, 5);
            assert(seq![vy].drop_last() =~= Seq::<Vec>::empty());
            assert(seq![offset].drop_last() =~= Seq::<Vec>::empty());
            assert(seq![a, b, c, d].drop_last() =~= seq![a, b, c]);
            assert(seq![a, b, c].drop_last() =~= seq![a, b]);
            assert(seq![a, b].drop_last() =~= seq![a]);
            assert(seq![a].drop_last() =~= Seq::<Vec>::empty());
        }
        r
    }
}

/// A point of the open unit disk in the lens plane.
pub open spec fn in_unit_disk(disk: Vec) -> bool {
    disk.z == 0 && disk.x * disk.x + disk.y * disk.y < ONE * ONE
}

/// A lens coordinate, a coordinate of a unit-disk point scaled by the lens
/// radius `lr`, lies within `lr` of the centre.
proof fn lemma_lens_coordinate(a: int, b: int, lr: int)
    requires
        a * a + b * b < ONE * ONE,
        in_range(lr),
    ensures
        -abs_spec(lr) <= fx_mul(a, lr) <= abs_spec(lr),
{
    let big = ONE as int;
    let m = abs_spec(lr);
    assert(-big < a < big) by (nonlinear_arith)
        requires
            a * a + b * b < big * big,
            big > 0,
    ;
    assert(-(m * big) <= a * lr <= m * big) by (nonlinear_arith)
        requires
            -big < a < big,
            m == abs_spec(lr),
            m >= 0,
            lr == m || lr == -m,
    ;
    vstd::arithmetic::div_mod::lemma_div_is_ordered(a * lr, m * big, big);
    vstd::arithmetic::div_mod::lemma_div_is_ordered(-(m * big), a * lr, big);
    vstd::arithmetic::div_mod::lemma_div_multiples_vanish(m, big);
    vstd::arithmetic::div_mod::lemma_div_multiples_vanish(-m, big);
    assert(m * big == big * m && -(m * big) == big * (-m)) by (nonlinear_arith);
}

/// With no aperture every ray leaves from the look-from point, whatever the
/// lens sample, toward the image-plane point less the look-from point.
pub proof fn lemma_pinhole(
    lf: Point,
    la: Point,
    vup: Vec,
    tan_half_fov: int,
    ar: int,
    fd: int,
    s: int,
    t: int,
    disk: Vec,
)
    requires
        init_ok(lf, la, vup, tan_half_fov, ar, 0, fd),
        disk.wf(),
    ensures
        init_spec(lf, la, vup, tan_half_fov, ar, 0, fd).ray_spec(s, t, disk).orig == lf,
        ({
            let cam = init_spec(lf, la, vup, tan_half_fov, ar, 0, fd);
            cam.ray_spec(s, t, disk).dir == cam.llc.plus(cam.hori.scale(s)).plus(cam.vert.scale(t)).plus(
                lf.neg(),
            )
        }),
{
    let cam = init_spec(lf, la, vup, tan_half_fov, ar, 0, fd);
    assert(cam.lr == 0);
    let rd = disk.scale(0);
    assert(rd.x == 0 && rd.y == 0);
    assert(cam.u.scale(0) == Vec { x: 0, y: 0, z: 0 });
    assert(cam.v.scale(0) == Vec { x: 0, y: 0, z: 0 });
    let zero = Vec { x: 0, y: 0, z: 0 };
    assert(cam.offset(disk) == zero);
    assert(zero.neg() == zero);
    let front = cam.llc.plus(cam.hori.scale(s)).plus(cam.vert.scale(t)).plus(lf.neg());
    assert(front.plus(zero) == front);
}

} // verus!
