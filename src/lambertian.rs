//! Diffuse surfaces.
use crate::hittable::HitRecord;
use crate::material::{Draw, Material};
use crate::ray::Ray;
use crate::fixed;
use crate::fixed::{isqrt, LIM, ONE};
use crate::vec::{
    lemma_unit_length, sum_all, Colour, Vec,
};
use vstd::prelude::*;

verus! {

/// A diffuse material of the given albedo.
#[derive(Clone, Copy, Debug, PartialEq, Eq, Structural)]
pub struct Lambertian {
    pub albedo: Colour,
}

impl Lambertian {
    pub open spec fn wf(self) -> bool {
        self.albedo.wf()
    }
}

impl Material for Lambertian {
    open spec fn well_formed(&self) -> bool {
        self.wf()
    }

    /// Always scatters, toward the normal plus a random unit vector (the bare
    /// normal where that sum vanishes), attenuated by the albedo.
    open spec fn scatter_spec(
        &self,
        r: Ray,
        rec: HitRecord,
        draw: Draw,
        att: Colour,
        scattered: Ray,
    ) -> (bool, Colour, Ray) {
        let d = rec.n.plus(draw.sphere.unit_spec());
        let dir = if d.is_zero() {
            rec.n
        } else {
            d
        };
        (true, self.albedo, Ray { orig: rec.p, dir })
    }

    fn scatter(
        &self,
        _r: &Ray,
        rec: &HitRecord,
        draw: &Draw,
        att: &mut Colour,
        scattered: &mut Ray,
    ) -> (b: bool) {
        let u = draw.sphere.unit();
        let mut dir = rec.n.add(&[u]);
        proof {
            reveal_with_fuel(sum_all, 2);
            assert(seq![u].drop_last() =~= Seq::<Vec>::empty());
        }
        if dir.near_zero() {
            dir = rec.n;
        }
        *scattered = Ray { orig: rec.p, dir };
        *att = self.albedo;
        true
    }
}

/// A diffuse surface scatters every ray that reaches it, attenuated by its albedo.
pub proof fn lemma_lambertian_scatters(m: Lambertian, r: Ray, rec: HitRecord, draw: Draw, att: Colour, scattered: Ray)
    ensures
        m.scatter_spec(r, rec, draw, att, scattered).0,
        m.scatter_spec(r, rec, draw, att, scattered).1 == m.albedo,
{
}

/// The diffuse direction never points below the surface, up to rounding:
/// about a normal of length one to within four units (as `unit` gives), its
/// dot product with the normal is at least `-10` units.
pub proof fn lemma_lambertian_hemisphere(
    m: Lambertian,
    r: Ray,
    rec: HitRecord,
    draw: Draw,
    att: Colour,
    scattered: Ray,
)
    requires
        rec.wf(),
        draw.wf(),
        ONE * ONE - 8 * ONE <= rec.n.raw_dot(rec.n) <= ONE * ONE + 8 * ONE + 3,
    ensures
        m.scatter_spec(r, rec, draw, att, scattered).2.dir.dot_spec(rec.n) >= -10,
{
    let n = rec.n;
    let u = draw.sphere.unit_spec();
    lemma_unit_length(draw.sphere);
    let uu = u.raw_dot(u);
    assert(uu >= 0) by (nonlinear_arith)
        requires
            uu == u.x * u.x + u.y * u.y + u.z * u.z,
    ;
    fixed::lemma_isqrt(uu);
    let k = isqrt(uu);
    assert(k == u.len_spec());
    assert(uu <= ONE * ONE + 10 * ONE + 24) by (nonlinear_arith)
        requires
            uu < (k + 1) * (k + 1),
            k <= ONE + 4,
            k >= 0,
    ;
    let nn = n.raw_dot(n);
    assert(-LIM / 2 <= n.x <= LIM / 2 && -LIM / 2 <= n.y <= LIM / 2 && -LIM / 2 <= n.z <= LIM / 2)
        by (nonlinear_arith)
        requires
            nn == n.x * n.x + n.y * n.y + n.z * n.z,
            nn <= ONE * ONE + 8 * ONE + 3,
    ;
    let d = n.plus(u);
    assert(d.x == n.x + u.x && d.y == n.y + u.y && d.z == n.z + u.z);
    let raw = d.raw_dot(n);
    assert(2 * raw >= nn - uu) by (nonlinear_arith)
        requires
            raw == (n.x + u.x) * n.x + (n.y + u.y) * n.y + (n.z + u.z) * n.z,
            nn == n.x * n.x + n.y * n.y + n.z * n.z,
            uu == u.x * u.x + u.y * u.y + u.z * u.z,
    ;
    assert(nn >= 0) by (nonlinear_arith)
        requires
            nn == n.x * n.x + n.y * n.y + n.z * n.z,
    ;
    vstd::arithmetic::div_mod::lemma_div_is_ordered(-10 * ONE, raw, ONE as int);
    vstd::arithmetic::div_mod::lemma_div_is_ordered(0, nn, ONE as int);
    vstd::arithmetic::div_mod::lemma_div_multiples_vanish(-10, ONE as int);
}

} // verus!
