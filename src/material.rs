//! The scattering contract that every surface material meets.
use crate::dielectric::Dielectric;
use crate::fixed::ONE;
use crate::hittable::HitRecord;
use crate::lambertian::Lambertian;
use crate::metal::Metal;
use crate::ray::Ray;
use crate::vec::{Colour, Vec};
use vstd::prelude::*;

verus! {

/// The random values that one scattering event consumes: a point inside the
/// unit ball, and a number uniform in `[0, 1)`.
#[derive(Clone, Copy, Debug, PartialEq, Eq, Structural)]
pub struct Draw {
    pub sphere: Vec,
    pub uniform: i64,
}

impl Draw {
    pub open spec fn wf(self) -> bool {
        self.sphere.wf() && !self.sphere.is_zero() && 0 <= self.uniform < ONE
    }
}

pub trait Material {
    /// The material's parameters lie in range.
    spec fn well_formed(&self) -> bool;

    /// Whether the incoming ray `r` scatters at `rec`, with the attenuation and
    /// the outgoing ray; `att` and `scattered` are the values held before.
    spec fn scatter_spec(
        &self,
        r: Ray,
        rec: HitRecord,
        draw: Draw,
        att: Colour,
        scattered: Ray,
    ) -> (bool, Colour, Ray);

    fn scatter(
        &self,
        r: &Ray,
        rec: &HitRecord,
        draw: &Draw,
        att: &mut Colour,
        scattered: &mut Ray,
    ) -> (b: bool)
        requires
            self.well_formed(),
            r.wf(),
            !r.dir.is_zero(),
            rec.wf(),
            draw.wf(),
        ensures
            (b, *final(att), *final(scattered)) == self.scatter_spec(
                *r,
                *rec,
                *draw,
                *old(att),
                *old(scattered),
            ),
            b ==> final(att).wf() && final(scattered).wf(),
    ;
}

/// The materials a surface may have; `MaterialNone` absorbs every ray.
#[derive(Clone, Copy, Debug, PartialEq, Eq, Structural)]
pub enum Materials {
    MaterialNone,
    Dielectric(Dielectric),
    Lambertian(Lambertian),
    Metal(Metal),
}

impl Materials {
    pub open spec fn wf(self) -> bool {
        match self {
            Materials::MaterialNone => true,
            Materials::Dielectric(m) => m.wf(),
            Materials::Lambertian(m) => m.wf(),
            Materials::Metal(m) => m.wf(),
        }
    }
}

impl Material for Materials {
    open spec fn well_formed(&self) -> bool {
        self.wf()
    }

    open spec fn scatter_spec(
        &self,
        r: Ray,
        rec: HitRecord,
        draw: Draw,
        att: Colour,
        scattered: Ray,
    ) -> (bool, Colour, Ray) {
        match self {
            Materials::MaterialNone => (false, att, scattered),
            Materials::Dielectric(m) => m.scatter_spec(r, rec, draw, att, scattered),
            Materials::Lambertian(m) => m.scatter_spec(r, rec, draw, att, scattered),
            Materials::Metal(m) => m.scatter_spec(r, rec, draw, att, scattered),
        }
    }

    fn scatter(
        &self,
        r: &Ray,
        rec: &HitRecord,
        draw: &Draw,
        att: &mut Colour,
        scattered: &mut Ray,
    ) -> (b: bool) {
        match self {
            Materials::MaterialNone => false,
            Materials::Dielectric(mat) => mat.scatter(r, rec, draw, att, scattered),
            Materials::Lambertian(mat) => mat.scatter(r, rec, draw, att, scattered),
            Materials::Metal(mat) => mat.scatter(r, rec, draw, att, scattered),
        }
    }
}

} // verus!
