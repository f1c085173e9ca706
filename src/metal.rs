//! Reflective surfaces.
use crate::fixed::in_range;
use crate::hittable::HitRecord;
use crate::material::{Draw, Material};
use crate::ray::Ray;
use crate::vec::{sum_all, Colour, Vec};
use vstd::prelude::*;

verus! {

/// A reflective material: its albedo, and how far its reflections are blurred.
#[derive(Clone, Copy, Debug, PartialEq, Eq, Structural)]
pub struct Metal {
    pub albedo: Colour,
    pub fuzz: i64,
}

impl Metal {
    pub open spec fn wf(self) -> bool {
        self.albedo.wf() && in_range(self.fuzz as int)
    }
}

impl Material for Metal {
    open spec fn well_formed(&self) -> bool {
        self.wf()
    }

    /// Reflects the unit incoming direction about the normal, perturbed by
    /// `fuzz` times a random point of the unit ball; scatters only when the
    /// result leaves the surface.
    open spec fn scatter_spec(
        &self,
        r: Ray,
        rec: HitRecord,
        draw: Draw,
        att: Colour,
        scattered: Ray,
    ) -> (bool, Colour, Ray) {
        let refl = r.dir.unit_spec().reflect_spec(rec.n);
        let dir = refl.plus(draw.sphere.scale(self.fuzz as int));
        (dir.dot_spec(rec.n) > 0, self.albedo, Ray { orig: rec.p, dir })
    }

    fn scatter(
        &self,
        r: &Ray,
        rec: &HitRecord,
        draw: &Draw,
        att: &mut Colour,
        scattered: &mut Ray,
    ) -> (b: bool) {
        let refl = r.dir.unit().reflect(&rec.n);
        let jitter = draw.sphere.mulf(self.fuzz);
        *scattered = Ray { orig: rec.p, dir: refl.add(&[jitter]) };
        proof {
            reveal_with_fuel(sum_all, 2);
            assert(seq![jitter].drop_last() =~= Seq::<Vec>::empty());
        }
        *att = self.albedo;
        scattered.dir.dot(&rec.n) > 0
    }
}

/// Without fuzz a metal reflects as a mirror does; whatever the fuzz, it
/// scatters exactly when the perturbed reflection leaves the surface.
pub proof fn lemma_metal_mirror(m: Metal, r: Ray, rec: HitRecord, draw: Draw, att: Colour, scattered: Ray)
    requires
        m.wf(),
        rec.wf(),
        draw.wf(),
    ensures
        m.fuzz == 0 ==> m.scatter_spec(r, rec, draw, att, scattered).2.dir == r.dir.unit_spec().reflect_spec(
            rec.n,
        ),
        m.scatter_spec(r, rec, draw, att, scattered).0 == (m.scatter_spec(
            r,
            rec,
            draw,
            att,
            scattered,
        ).2.dir.dot_spec(rec.n) > 0),
{
    let refl = r.dir.unit_spec().reflect_spec(rec.n);
    assert(refl.wf());
    if m.fuzz == 0 {
        assert(draw.sphere.scale(0) == Vec { x: 0, y: 0, z: 0 });
        assert(refl.plus(Vec { x: 0, y: 0, z: 0 }) == refl);
    }
}

} // verus!
