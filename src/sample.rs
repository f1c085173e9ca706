//! The acceptance steps of the rejection samplers: a candidate point, drawn
//! uniformly from a square or cube about the origin, is kept only when it
//! falls inside the unit disk or ball.
use crate::camera::in_unit_disk;
use crate::fixed::{in_range, ONE};
use crate::vec::Vec;
use vstd::prelude::*;

verus! {

/// The candidate `(x, y, z)` for a point of the unit ball, kept when it lies
/// strictly inside the ball and off the centre (where it has no direction).
pub fn ball_candidate(x: i64, y: i64, z: i64) -> (r: Option<Vec>)
    requires
        in_range(x as int),
        in_range(y as int),
        in_range(z as int),
    ensures
        r == (if x * x + y * y + z * z < ONE * ONE && !(Vec { x, y, z }).is_zero() {
            Some(Vec { x, y, z })
        } else {
            None
        }),
        r matches Some(p) ==> p.wf() && !p.is_zero() && p.raw_dot(p) < ONE * ONE,
{
    let p = Vec { x, y, z };
    if p.dot_exact(&p) < ONE as i128 * ONE as i128 && !p.near_zero() {
        Some(p)
    } else {
        None
    }
}

/// The candidate `(x, y)` for a point of the unit disk in the lens plane,
/// kept when it lies strictly inside the disk.
pub fn disk_candidate(x: i64, y: i64) -> (r: Option<Vec>)
    requires
        in_range(x as int),
        in_range(y as int),
    ensures
        r == (if x * x + y * y < ONE * ONE {
            Some(Vec { x, y, z: 0 })
        } else {
            None
        }),
        r matches Some(p) ==> p.wf() && in_unit_disk(p),
{
    let p = Vec { x, y, z: 0 };
    if p.dot_exact(&p) < ONE as i128 * ONE as i128 {
        Some(p)
    } else {
        None
    }
}

} // verus!
