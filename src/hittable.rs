//! Hit records, and the nearest-hit query over a scene.
use crate::fixed::{in_range, ONE};
use crate::material::Materials;
use crate::sphere::{lemma_sphere_shrink, Sphere};
use crate::ray::Ray;
use crate::vec::{Point, Vec};
use vstd::prelude::*;

verus! {

/// Where a ray meets a surface: the point, the normal turned against the ray,
/// the surface's material, the ray parameter, and whether the ray came from
/// outside.
#[derive(Clone, Copy, Debug, PartialEq, Eq, Structural)]
pub struct HitRecord {
    pub p: Point,
    pub n: Vec,
    pub mat: Materials,
    pub t: i64,
    pub front_face: bool,
}

impl HitRecord {
    pub open spec fn wf(self) -> bool {
        self.p.wf() && self.n.wf() && self.mat.wf() && in_range(self.t as int)
    }

    /// Whether `r` meets the surface from outside, given the outward normal.
    pub open spec fn faces(r: Ray, out_n: Vec) -> bool {
        r.dir.dot_spec(out_n) < 0
    }

    /// The normal turned to oppose `r`.
    pub open spec fn facing_normal(r: Ray, out_n: Vec) -> Vec {
        if Self::faces(r, out_n) {
            out_n
        } else {
            out_n.neg()
        }
    }

    /// Orients the normal against the incoming ray, recording on which side it came.
    pub fn set_face_norm(&mut self, r: &Ray, out_n: &Vec)
        requires
            r.wf(),
            out_n.wf(),
        ensures
            *final(self) == (HitRecord {
                front_face: HitRecord::faces(*r, *out_n),
                n: HitRecord::facing_normal(*r, *out_n),
                ..*old(self)
            }),
    {
        self.front_face = r.dir.dot(out_n) < 0;
        self.n = if self.front_face {
            *out_n
        } else {
            out_n.mulf(-ONE)
        };
    }
}

pub trait Hittable {
    /// The object's parameters lie in range.
    spec fn well_formed(&self) -> bool;

    /// The hit that a query over `[t_min, t_max]` reports, if any.
    spec fn hit_spec(&self, r: Ray, t_min: int, t_max: int) -> Option<HitRecord>;

    /// Reports in `rec` the hit of `r` within `[t_min, t_max]`, leaving `rec`
    /// as it was where there is none.
    fn hit(&self, r: &Ray, t_min: i64, t_max: i64, rec: &mut HitRecord) -> (b: bool)
        requires
            self.well_formed(),
            r.wf(),
            in_range(t_min as int),
            in_range(t_max as int),
        ensures
            b == self.hit_spec(*r, t_min as int, t_max as int).is_some(),
            b ==> Some(*final(rec)) == self.hit_spec(*r, t_min as int, t_max as int),
            b ==> final(rec).wf(),
            !b ==> *final(rec) == *old(rec),
    ;
}

/// The kinds of object a scene holds.
#[derive(Clone, Copy, Debug, PartialEq, Eq, Structural)]
pub enum Hittables {
    Sphere(Sphere),
}

impl Hittables {
    pub open spec fn wf(self) -> bool {
        match self {
            Hittables::Sphere(s) => s.wf(),
        }
    }

    /// The hit that the object reports within `[t_min, t_max]`.
    #[verifier::opaque]
    pub open spec fn hit_at(self, r: Ray, t_min: int, t_max: int) -> Option<HitRecord> {
        match self {
            Hittables::Sphere(s) => s.hit_at(r, t_min, t_max),
        }
    }
}

impl Hittable for Hittables {
    open spec fn well_formed(&self) -> bool {
        self.wf()
    }

    open spec fn hit_spec(&self, r: Ray, t_min: int, t_max: int) -> Option<HitRecord> {
        self.hit_at(r, t_min, t_max)
    }

    fn hit(&self, r: &Ray, t_min: i64, t_max: i64, rec: &mut HitRecord) -> (b: bool) {
        proof {
            reveal(Hittables::hit_at);
        }
        match self {
            Hittables::Sphere(sphere) => sphere.hit(r, t_min, t_max, rec),
        }
    }
}

/// A hit of `o` within a narrower interval is its hit within the wider one,
/// where that lies in the narrower.
pub proof fn lemma_hit_shrink(o: Hittables, r: Ray, t_min: int, t_lo: int, t_hi: int)
    requires
        t_lo <= t_hi,
    ensures
        o.hit_at(r, t_min, t_lo) == match o.hit_at(r, t_min, t_hi) {
            Some(h) => if h.t <= t_lo {
                Some(h)
            } else {
                None
            },
            None => None,
        },
        o.hit_at(r, t_min, t_hi) matches Some(h) ==> t_min <= h.t <= t_hi,
        o.hit_at(r, t_min, t_hi) is Some ==> !r.dir.is_zero(),
{
    reveal(Hittables::hit_at);
    match o {
        Hittables::Sphere(s) => lemma_sphere_shrink(s, r, t_min, t_lo, t_hi),
    }
}

/// What a linear scan of `objs` reports: each object is asked for a hit up to
/// the nearest distance found so far, and a hit it reports replaces the last.
pub open spec fn scan(objs: Seq<Hittables>, r: Ray, t_min: int, t_max: int) -> Option<HitRecord>
    decreases objs.len(),
{
    if objs.len() == 0 {
        None
    } else {
        let prev = scan(objs.drop_last(), r, t_min, t_max);
        let bound = match prev {
            Some(h) => h.t as int,
            None => t_max,
        };
        match objs.last().hit_at(r, t_min, bound) {
            Some(h) => Some(h),
            None => prev,
        }
    }
}

/// The scan finds the nearest hit: it reports nothing exactly when no object
/// is hit within `[t_min, t_max]`, and otherwise the hit of one of them, no
/// farther than the hit of any.
pub proof fn lemma_scan_nearest(objs: Seq<Hittables>, r: Ray, t_min: int, t_max: int)
    ensures
        scan(objs, r, t_min, t_max) is None <==> forall|i: int|
            0 <= i < objs.len() ==> (#[trigger] objs[i].hit_at(r, t_min, t_max)) is None,
        scan(objs, r, t_min, t_max) matches Some(h) ==> exists|i: int|
            0 <= i < objs.len() && #[trigger] objs[i].hit_at(r, t_min, t_max) == Some(h),
        scan(objs, r, t_min, t_max) matches Some(h) ==> forall|i: int|
            0 <= i < objs.len() && (#[trigger] objs[i].hit_at(r, t_min, t_max)) is Some ==> h.t
                <= objs[i].hit_at(r, t_min, t_max)->Some_0.t,
    decreases objs.len(),
{
    if objs.len() > 0 {
        let pre = objs.drop_last();
        let o = objs.last();
        let n = objs.len() - 1;
        lemma_scan_nearest(pre, r, t_min, t_max);
        let prev = scan(pre, r, t_min, t_max);
        let res = scan(objs, r, t_min, t_max);
        assert(forall|i: int| 0 <= i < pre.len() ==> #[trigger] pre[i] == objs[i]);
        assert(o == objs[n]);
        lemma_hit_shrink(o, r, t_min, t_max, t_max);
        match prev {
            Some(h) => {
                let i0 = choose|i: int|
                    0 <= i < pre.len() && #[trigger] pre[i].hit_at(r, t_min, t_max) == Some(h);
                lemma_hit_shrink(pre[i0], r, t_min, t_max, t_max);
                lemma_hit_shrink(o, r, t_min, h.t as int, t_max);
                assert(objs[i0].hit_at(r, t_min, t_max) == Some(h));
                let g = res->Some_0;
                assert forall|i: int|
                    0 <= i < objs.len() && (#[trigger] objs[i].hit_at(
                        r,
                        t_min,
                        t_max,
                    )) is Some implies g.t <= objs[i].hit_at(r, t_min, t_max)->Some_0.t by {
                    if i < n {
                        assert(pre[i] == objs[i]);
                    }
                }
            },
            None => {
                assert forall|i: int|
                    0 <= i < objs.len() && (#[trigger] objs[i].hit_at(
                        r,
                        t_min,
                        t_max,
                    )) is Some implies res is Some && res->Some_0.t <= objs[i].hit_at(
                    r,
                    t_min,
                    t_max,
                )->Some_0.t by {
                    if i < n {
                        assert(pre[i] == objs[i]);
                        assert(pre[i].hit_at(r, t_min, t_max) is None);
                    }
                }
                if res is None {
                    assert forall|i: int| 0 <= i < objs.len() implies (#[trigger] objs[i].hit_at(
                        r,
                        t_min,
                        t_max,
                    )) is None by {
                        if i < n {
                            assert(pre[i] == objs[i]);
                        }
                    }
                }
            },
        }
    }
}

/// A scene: its objects, in the order they were added.
pub struct HittableList {
    pub objects: std::vec::Vec<Hittables>,
}

impl HittableList {
    pub open spec fn wf(self) -> bool {
        forall|i: int| 0 <= i < self.objects@.len() ==> (#[trigger] self.objects@[i]).wf()
    }
}

impl Hittable for HittableList {
    open spec fn well_formed(&self) -> bool {
        self.wf()
    }

    open spec fn hit_spec(&self, r: Ray, t_min: int, t_max: int) -> Option<HitRecord> {
        scan(self.objects@, r, t_min, t_max)
    }

    fn hit(&self, r: &Ray, t_min: i64, t_max: i64, rec: &mut HitRecord) -> (b: bool) {
        let mut temp_rec: HitRecord = *rec;
        let mut hit = false;
        let mut closest = t_max;
        let mut i: usize = 0;
        while i < self.objects.len()
            invariant
                i <= self.objects@.len(),
                self.wf(),
                r.wf(),
                in_range(t_min as int),
                in_range(t_max as int),
                in_range(closest as int),
                scan(self.objects@.subrange(0, i as int), *r, t_min as int, t_max as int) == (if hit {
                    Some(*rec)
                } else {
                    None
                }),
                hit ==> closest == rec.t && rec.wf(),
                !hit ==> closest == t_max && *rec == *old(rec),
            decreases self.objects@.len() - i,
        {
            let ghost pre = self.objects@.subrange(0, i as int);
            assert(self.objects@.subrange(0, i + 1).drop_last() =~= pre);
            assert(self.objects@[i as int].wf());
            if self.objects[i].hit(r, t_min, closest, &mut temp_rec) {
                hit = true;
                closest = temp_rec.t;
                *rec = temp_rec;
            }
            i += 1;
        }
        assert(self.objects@.subrange(0, self.objects@.len() as int) =~= self.objects@);
        hit
    }
}

} // verus!
