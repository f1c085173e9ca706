//! Rays: an origin and a direction.
use crate::fixed::in_range;
use crate::vec::{sum_all, Point, Vec};
use vstd::prelude::*;

verus! {

/// The half-line `orig + dir * t`.
#[derive(Clone, Copy, Debug, PartialEq, Eq, Structural)]
pub struct Ray {
    pub orig: Point,
    pub dir: Vec,
}

impl Ray {
    pub open spec fn wf(self) -> bool {
        self.orig.wf() && self.dir.wf()
    }

    /// The point `orig + dir * t`.
    pub open spec fn at_spec(self, t: int) -> Point {
        self.orig.plus(self.dir.scale(t))
    }

    pub fn at(&self, t: i64) -> (r: Point)
        requires
            self.wf(),
            in_range(t as int),
        ensures
            r == self.at_spec(t as int),
            r.wf(),
    {
        let step = self.dir.mulf(t);
        let r = self.orig.add(&[step]);
        proof {
            reveal_with_fuel(sum_all, 2);
            assert(seq![step].drop_last() =~= Seq::<Vec>::empty());
        }
        r
    }
}

} // verus!
