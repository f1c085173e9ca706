//! Spheres, and where a ray meets one.
use crate::fixed::{
    div_floor, floor_div, in_range, is_isqrt, isqrt, isqrt_exec, lemma_isqrt, lemma_isqrt_unique,
    lemma_prod_bound, sat, saturate, ONE,
};
use crate::hittable::{HitRecord, Hittable};
use crate::material::Materials;
use crate::ray::Ray;
use crate::vec::{diff_all, Point, Vec};
use vstd::prelude::*;

verus! {

/// A sphere: centre, radius and material.
#[derive(Clone, Copy, Debug, PartialEq, Eq, Structural)]
pub struct Sphere {
    pub c: Point,
    pub r: i64,
    pub mat: Materials,
}

impl Sphere {
    pub open spec fn wf(self) -> bool {
        self.c.wf() && in_range(self.r as int) && self.r != 0 && self.mat.wf()
    }

    /// The vector from the centre to the ray's origin.
    pub open spec fn oc(self, r: Ray) -> Vec {
        r.orig.minus(self.c)
    }

    /// The coefficients `a`, `b`, `c` of `a t^2 + 2 b t + c = 0`, exact, in
    /// units of `ONE * ONE`.
    pub open spec fn qa(self, r: Ray) -> int {
        r.dir.raw_dot(r.dir)
    }

    pub open spec fn qb(self, r: Ray) -> int {
        self.oc(r).raw_dot(r.dir)
    }

    pub open spec fn qc(self, r: Ray) -> int {
        self.oc(r).raw_dot(self.oc(r)) - self.r * self.r
    }

    pub open spec fn disc(self, r: Ray) -> int {
        self.qb(r) * self.qb(r) - self.qa(r) * self.qc(r)
    }

    /// The smaller root.
    pub open spec fn near_root(self, r: Ray) -> int {
        sat(div_floor((-self.qb(r) - isqrt(self.disc(r))) * ONE, self.qa(r)))
    }

    /// The larger root.
    pub open spec fn far_root(self, r: Ray) -> int {
        sat(div_floor((-self.qb(r) + isqrt(self.disc(r))) * ONE, self.qa(r)))
    }

    /// The root accepted within `[t_min, t_max]`: the smaller where it lies
    /// there, else the larger; none for a ray without direction.
    pub open spec fn root_in(self, r: Ray, t_min: int, t_max: int) -> Option<int> {
        if self.qa(r) == 0 || self.disc(r) < 0 {
            None
        } else if t_min <= self.near_root(r) <= t_max {
            Some(self.near_root(r))
        } else if t_min <= self.far_root(r) <= t_max {
            Some(self.far_root(r))
        } else {
            None
        }
    }

    /// The record of a hit at parameter `t`.
    pub open spec fn record_at(self, r: Ray, t: int) -> HitRecord {
        let p = r.at_spec(t);
        let out_n = p.minus(self.c).shrink(self.r as int);
        HitRecord {
            p,
            n: HitRecord::facing_normal(r, out_n),
            mat: self.mat,
            t: t as i64,
            front_face: HitRecord::faces(r, out_n),
        }
    }

    pub open spec fn hit_at(self, r: Ray, t_min: int, t_max: int) -> Option<HitRecord> {
        match self.root_in(r, t_min, t_max) {
            Some(t) => Some(self.record_at(r, t)),
            None => None,
        }
    }
}

/// A hit found within a narrower interval is the hit found within the wider
/// one, where that lies in the narrower.
pub proof fn lemma_sphere_shrink(s: Sphere, r: Ray, t_min: int, t_lo: int, t_hi: int)
    requires
        t_lo <= t_hi,
    ensures
        s.root_in(r, t_min, t_lo) == match s.root_in(r, t_min, t_hi) {
            Some(t) => if t <= t_lo {
                Some(t)
            } else {
                None
            },
            None => None,
        },
        s.hit_at(r, t_min, t_lo) == match s.hit_at(r, t_min, t_hi) {
            Some(h) => if h.t <= t_lo {
                Some(h)
            } else {
                None
            },
            None => None,
        },
        s.hit_at(r, t_min, t_hi) matches Some(h) ==> t_min <= h.t <= t_hi,
{
    if s.qa(r) != 0 && s.disc(r) >= 0 {
        lemma_isqrt(s.disc(r));
        let a = s.qa(r);
        assert(a > 0) by (nonlinear_arith)
            requires
                a == r.dir.x * r.dir.x + r.dir.y * r.dir.y + r.dir.z * r.dir.z,
                a != 0,
        ;
        vstd::arithmetic::div_mod::lemma_div_is_ordered(
            (-s.qb(r) - isqrt(s.disc(r))) * ONE,
            (-s.qb(r) + isqrt(s.disc(r))) * ONE,
            a,
        );
        assert(s.near_root(r) <= s.far_root(r));
        if let Some(t) = s.root_in(r, t_min, t_hi) {
            assert(s.record_at(r, t).t == t);
        }
        if let Some(t) = s.root_in(r, t_min, t_lo) {
            assert(s.record_at(r, t).t == t);
        }
    }
}

/// A ray whose unit direction points straight at the centre, from a distance
/// `d` beyond the radius, meets the sphere at `t = d - radius`: its direction
/// has length one, and its origin lies `d` back from the centre along it.
pub proof fn lemma_head_on(s: Sphere, r: Ray, d: int, t_min: int, t_max: int)
    requires
        s.r > 0,
        d > s.r,
        r.dir.raw_dot(r.dir) == ONE * ONE,
        s.oc(r).raw_dot(r.dir) == -d * ONE,
        s.oc(r).raw_dot(s.oc(r)) == d * d,
        t_min <= d - s.r <= t_max,
        in_range(d - s.r),
    ensures
        s.root_in(r, t_min, t_max) == Some(d - s.r),
        s.hit_at(r, t_min, t_max) matches Some(h) && h.t == d - s.r,
{
    let big = ONE as int;
    let rad = s.r as int;
    assert(s.disc(r) == (big * rad) * (big * rad)) by (nonlinear_arith)
        requires
            s.qa(r) == big * big,
            s.qb(r) == -d * big,
            s.qc(r) == d * d - rad * rad,
            s.disc(r) == s.qb(r) * s.qb(r) - s.qa(r) * s.qc(r),
    ;
    let n = s.disc(r);
    lemma_isqrt(n);
    assert(is_isqrt(big * rad, n)) by (nonlinear_arith)
        requires
            n == (big * rad) * (big * rad),
            big > 0,
            rad > 0,
    ;
    lemma_isqrt_unique(isqrt(n), big * rad, n);
    assert((-s.qb(r) - isqrt(n)) * big == (d - rad) * (big * big)) by (nonlinear_arith)
        requires
            s.qb(r) == -d * big,
            isqrt(n) == big * rad,
    ;
    vstd::arithmetic::div_mod::lemma_fundamental_div_mod_converse(
        (d - rad) * (big * big),
        big * big,
        d - rad,
        0,
    );
    assert(s.near_root(r) == d - rad);
    assert(s.record_at(r, d - rad).t == d - rad);
}

/// A ray whose line passes the centre farther off than the radius misses:
/// `|oc|^2 |dir|^2 - (oc . dir)^2`, the squared distance of the line from the
/// centre scaled by `|dir|^2`, exceeds `radius^2 |dir|^2`.
pub proof fn lemma_passing_ray(s: Sphere, r: Ray, t_min: int, t_max: int)
    requires
        s.qa(r) * (s.r * s.r) < s.qa(r) * s.oc(r).raw_dot(s.oc(r)) - s.qb(r) * s.qb(r),
    ensures
        s.hit_at(r, t_min, t_max) is None,
{
    assert(s.disc(r) < 0) by (nonlinear_arith)
        requires
            s.qa(r) * (s.r * s.r) < s.qa(r) * s.oc(r).raw_dot(s.oc(r)) - s.qb(r) * s.qb(r),
            s.qc(r) == s.oc(r).raw_dot(s.oc(r)) - s.r * s.r,
            s.disc(r) == s.qb(r) * s.qb(r) - s.qa(r) * s.qc(r),
    ;
}

impl Hittable for Sphere {
    open spec fn well_formed(&self) -> bool {
        self.wf()
    }

    open spec fn hit_spec(&self, r: Ray, t_min: int, t_max: int) -> Option<HitRecord> {
        self.hit_at(r, t_min, t_max)
    }

    fn hit(&self, r: &Ray, t_min: i64, t_max: i64, rec: &mut HitRecord) -> (b: bool) {
        let oc = r.orig.sub(&[self.c]);
        proof {
            reveal_with_fuel(diff_all, 2);
            assert(seq![self.c].drop_last() =~= Seq::<Vec>::empty());
            lemma_prod_bound(self.r as int, self.r as int);
        }
        let a = r.dir.dot_exact(&r.dir);
        let b = oc.dot_exact(&r.dir);
        let c = oc.dot_exact(&oc) - self.r as i128 * self.r as i128;
        if a == 0 {
            return false;
        }
        proof {
            assert(0 <= b * b <= 0x1000_0000_0000_0000_0000_0000_0000_0000) by (nonlinear_arith)
                requires
                    -0x3000_0000_0000_0000 <= b <= 0x3000_0000_0000_0000,
            ;
            assert(-0x1000_0000_0000_0000_0000_0000_0000_0000 <= a * c
                <= 0x1000_0000_0000_0000_0000_0000_0000_0000) by (nonlinear_arith)
                requires
                    -0x3000_0000_0000_0000 <= a <= 0x3000_0000_0000_0000,
                    -0x3000_0000_0000_0000 <= b <= 0x3000_0000_0000_0000,
                    -0x4000_0000_0000_0000 <= c <= 0x4000_0000_0000_0000,
            ;
        }
        let disc = b * b - a * c;
        if disc < 0 {
            return false;
        }
        let sq = isqrt_exec(disc as u128);
        proof {
            assert(sq <= 0x1_0000_0000_0000_0000) by (nonlinear_arith)
                requires
                    sq * sq <= disc,
                    disc <= 0x1_0000_0000_0000_0000_0000_0000_0000_0000,
                    sq >= 0,
            ;
        }
        let sq = sq as i128;
        let one = ONE as i128;
        let mut root = saturate(floor_div((-b - sq) * one, a));
        if root < t_min || root > t_max {
            root = saturate(floor_div((-b + sq) * one, a));
            if root < t_min || root > t_max {
                return false;
            }
        }
        rec.t = root;
        rec.p = r.at(root);
        let out_n = rec.p.sub(&[self.c]).divf(self.r);
        proof {
            assert(seq![self.c].drop_last() =~= Seq::<Vec>::empty());
        }
        rec.set_face_norm(r, &out_n);
        rec.mat = self.mat;
        true
    }
}

} // verus!
