//! Three-component fixed-point vectors, used as points, directions and colours.
use crate::fixed::{
    div_floor, fadd, fdiv, floor_div, fmul, fsqrt, fsub, fx_div, fx_mul, fx_sqrt, in_range, isqrt,
    isqrt_exec, lemma_prod_bound, sat, saturate, LIM, ONE,
};
use crate::fixed;
use vstd::prelude::*;

verus! {

/// A vector of three fixed-point components.
#[derive(Clone, Copy, Debug, PartialEq, Eq, Structural)]
pub struct Vec {
    pub x: i64,
    pub y: i64,
    pub z: i64,
}

pub type Point = Vec;

pub type Colour = Vec;

/// The vector whose components are the given exact values, saturated.
pub open spec fn vec3(x: int, y: int, z: int) -> Vec {
    Vec { x: sat(x) as i64, y: sat(y) as i64, z: sat(z) as i64 }
}

/// Folds `s` into `v` from the left, one operand at a time.
pub open spec fn sum_all(v: Vec, s: Seq<Vec>) -> Vec
    decreases s.len(),
{
    if s.len() == 0 {
        v
    } else {
        sum_all(v, s.drop_last()).plus(s.last())
    }
}

/// Subtracts each of `s` from `v` in turn.
pub open spec fn diff_all(v: Vec, s: Seq<Vec>) -> Vec
    decreases s.len(),
{
    if s.len() == 0 {
        v
    } else {
        diff_all(v, s.drop_last()).minus(s.last())
    }
}

/// Multiplies `v` componentwise by each of `s` in turn.
pub open spec fn prod_all(v: Vec, s: Seq<Vec>) -> Vec
    decreases s.len(),
{
    if s.len() == 0 {
        v
    } else {
        prod_all(v, s.drop_last()).times(s.last())
    }
}

/// Divides `v` componentwise by each of `s` in turn.
pub open spec fn quot_all(v: Vec, s: Seq<Vec>) -> Vec
    decreases s.len(),
{
    if s.len() == 0 {
        v
    } else {
        quot_all(v, s.drop_last()).over(s.last())
    }
}

/// Every vector of `s` is well formed.
pub open spec fn all_wf(s: Seq<Vec>) -> bool {
    forall|i: int| 0 <= i < s.len() ==> #[trigger] s[i].wf()
}

/// No vector of `s` has a zero component.
pub open spec fn no_zero_component(s: Seq<Vec>) -> bool {
    forall|i: int| 0 <= i < s.len() ==> #[trigger] s[i].x != 0 && s[i].y != 0 && s[i].z != 0
}

impl Vec {
    /// Every component lies in the representable range.
    pub open spec fn wf(self) -> bool {
        in_range(self.x as int) && in_range(self.y as int) && in_range(self.z as int)
    }

    /// All three components vanish.
    pub open spec fn is_zero(self) -> bool {
        self.x == 0 && self.y == 0 && self.z == 0
    }

    /// Componentwise sum.
    pub open spec fn plus(self, o: Vec) -> Vec {
        vec3(self.x + o.x, self.y + o.y, self.z + o.z)
    }

    /// Componentwise difference.
    pub open spec fn minus(self, o: Vec) -> Vec {
        vec3(self.x - o.x, self.y - o.y, self.z - o.z)
    }

    /// Componentwise fixed-point product.
    pub open spec fn times(self, o: Vec) -> Vec {
        Vec {
            x: fx_mul(self.x as int, o.x as int) as i64,
            y: fx_mul(self.y as int, o.y as int) as i64,
            z: fx_mul(self.z as int, o.z as int) as i64,
        }
    }

    /// Componentwise fixed-point quotient.
    pub open spec fn over(self, o: Vec) -> Vec {
        Vec {
            x: fx_div(self.x as int, o.x as int) as i64,
            y: fx_div(self.y as int, o.y as int) as i64,
            z: fx_div(self.z as int, o.z as int) as i64,
        }
    }

    /// Each component times the scalar `k`.
    pub open spec fn scale(self, k: int) -> Vec {
        Vec {
            x: fx_mul(self.x as int, k) as i64,
            y: fx_mul(self.y as int, k) as i64,
            z: fx_mul(self.z as int, k) as i64,
        }
    }

    /// Each component divided by the scalar `k`.
    pub open spec fn shrink(self, k: int) -> Vec {
        Vec {
            x: fx_div(self.x as int, k) as i64,
            y: fx_div(self.y as int, k) as i64,
            z: fx_div(self.z as int, k) as i64,
        }
    }

    /// The opposite vector.
    pub open spec fn neg(self) -> Vec {
        self.scale(-ONE)
    }

    /// The exact sum of the component products, in units of `ONE * ONE`.
    pub open spec fn raw_dot(self, o: Vec) -> int {
        self.x * o.x + self.y * o.y + self.z * o.z
    }

    /// The dot product, rounded once.
    pub open spec fn dot_spec(self, o: Vec) -> int {
        sat(div_floor(self.raw_dot(o), ONE as int))
    }

    /// The right-handed cross product, each component rounded once.
    pub open spec fn cross_spec(self, o: Vec) -> Vec {
        vec3(
            div_floor(self.y * o.z - self.z * o.y, ONE as int),
            div_floor(self.z * o.x - self.x * o.z, ONE as int),
            div_floor(self.x * o.y - self.y * o.x, ONE as int),
        )
    }

    /// The squared length.
    pub open spec fn len_sqrd_spec(self) -> int {
        self.dot_spec(self)
    }

    /// The length: the integer square root of the exact sum of squares.
    pub open spec fn len_spec(self) -> int {
        sat(isqrt(self.raw_dot(self)))
    }

    /// The length in units of `ONE * ONE`, for a precise division: the integer
    /// square root of the exact sum of squares scaled by `ONE * ONE`.
    pub open spec fn fine_len(self) -> int {
        isqrt(self.raw_dot(self) * (ONE * ONE))
    }

    /// The vector divided by its length, each component rounded once.
    pub open spec fn unit_spec(self) -> Vec {
        vec3(
            div_floor(self.x * (ONE * ONE), self.fine_len()),
            div_floor(self.y * (ONE * ONE), self.fine_len()),
            div_floor(self.z * (ONE * ONE), self.fine_len()),
        )
    }

    /// `self - n * (2 * (self . n))`.
    pub open spec fn reflect_spec(self, n: Vec) -> Vec {
        self.minus(n.scale(sat(2 * self.dot_spec(n))))
    }

    /// Snell refraction of the unit direction `self` about the unit normal `n`,
    /// with `e` the ratio of the refractive indices.
    pub open spec fn refract_spec(self, n: Vec, e: int) -> Vec {
        let d = self.neg().dot_spec(n);
        let c = if d < ONE { d } else { ONE as int };
        let perp = self.plus(n.scale(c)).scale(e);
        let along = n.scale(-fx_sqrt(abs_spec(sat(ONE - perp.len_sqrd_spec()))));
        perp.plus(along)
    }
}

impl Vec {
    /// `self` plus each of `others` in turn.
    pub fn add(&self, others: &[Vec]) -> (r: Vec)
        requires
            self.wf(),
            all_wf(others@),
        ensures
            r == sum_all(*self, others@),
            r.wf(),
    {
        let mut v = *self;
        let mut i: usize = 0;
        while i < others.len()
            invariant
                i <= others@.len(),
                all_wf(others@),
                v.wf(),
                v == sum_all(*self, others@.subrange(0, i as int)),
            decreases others.len() - i,
        {
            let o = others[i];
            assert(o.wf());
            v = Vec { x: fadd(v.x, o.x), y: fadd(v.y, o.y), z: fadd(v.z, o.z) };
            assert(others@.subrange(0, i + 1).drop_last() =~= others@.subrange(0, i as int));
            i += 1;
        }
        assert(others@.subrange(0, others@.len() as int) =~= others@);
        v
    }

    /// `self` minus each of `others` in turn.
    pub fn sub(&self, others: &[Vec]) -> (r: Vec)
        requires
            self.wf(),
            all_wf(others@),
        ensures
            r == diff_all(*self, others@),
            r.wf(),
    {
        let mut v = *self;
        let mut i: usize = 0;
        while i < others.len()
            invariant
                i <= others@.len(),
                all_wf(others@),
                v.wf(),
                v == diff_all(*self, others@.subrange(0, i as int)),
            decreases others.len() - i,
        {
            let o = others[i];
            assert(o.wf());
            v = Vec { x: fsub(v.x, o.x), y: fsub(v.y, o.y), z: fsub(v.z, o.z) };
            assert(others@.subrange(0, i + 1).drop_last() =~= others@.subrange(0, i as int));
            i += 1;
        }
        assert(others@.subrange(0, others@.len() as int) =~= others@);
        v
    }

    /// `self` multiplied componentwise by each of `others` in turn.
    pub fn mul(&self, others: &[Vec]) -> (r: Vec)
        requires
            self.wf(),
            all_wf(others@),
        ensures
            r == prod_all(*self, others@),
            r.wf(),
    {
        let mut v = *self;
        let mut i: usize = 0;
        while i < others.len()
            invariant
                i <= others@.len(),
                all_wf(others@),
                v.wf(),
                v == prod_all(*self, others@.subrange(0, i as int)),
            decreases others.len() - i,
        {
            let o = others[i];
            assert(o.wf());
            v = Vec { x: fmul(v.x, o.x), y: fmul(v.y, o.y), z: fmul(v.z, o.z) };
            assert(others@.subrange(0, i + 1).drop_last() =~= others@.subrange(0, i as int));
            i += 1;
        }
        assert(others@.subrange(0, others@.len() as int) =~= others@);
        v
    }

    /// `self` divided componentwise by each of `others` in turn.
    pub fn div(&self, others: &[Vec]) -> (r: Vec)
        requires
            self.wf(),
            all_wf(others@),
            no_zero_component(others@),
        ensures
            r == quot_all(*self, others@),
            r.wf(),
    {
        let mut v = *self;
        let mut i: usize = 0;
        while i < others.len()
            invariant
                i <= others@.len(),
                all_wf(others@),
                no_zero_component(others@),
                v.wf(),
                v == quot_all(*self, others@.subrange(0, i as int)),
            decreases others.len() - i,
        {
            let o = others[i];
            assert(o.wf() && o.x != 0 && o.y != 0 && o.z != 0);
            v = Vec { x: fdiv(v.x, o.x), y: fdiv(v.y, o.y), z: fdiv(v.z, o.z) };
            assert(others@.subrange(0, i + 1).drop_last() =~= others@.subrange(0, i as int));
            i += 1;
        }
        assert(others@.subrange(0, others@.len() as int) =~= others@);
        v
    }

    pub fn mulf(&self, val: i64) -> (r: Vec)
        requires
            self.wf(),
            in_range(val as int),
        ensures
            r == self.scale(val as int),
            r.wf(),
    {
        Vec { x: fmul(self.x, val), y: fmul(self.y, val), z: fmul(self.z, val) }
    }

    pub fn divf(&self, val: i64) -> (r: Vec)
        requires
            self.wf(),
            in_range(val as int),
            val != 0,
        ensures
            r == self.shrink(val as int),
            r.wf(),
    {
        Vec { x: fdiv(self.x, val), y: fdiv(self.y, val), z: fdiv(self.z, val) }
    }

    pub fn dot(&self, other: &Vec) -> (r: i64)
        requires
            self.wf(),
            other.wf(),
        ensures
            r == self.dot_spec(*other),
            in_range(r as int),
    {
        proof {
            lemma_prod_bound(self.x as int, other.x as int);
            lemma_prod_bound(self.y as int, other.y as int);
            lemma_prod_bound(self.z as int, other.z as int);
        }
        let s: i128 = self.x as i128 * other.x as i128 + self.y as i128 * other.y as i128
            + self.z as i128 * other.z as i128;
        saturate(floor_div(s, ONE as i128))
    }

    /// The right-handed cross product.
    pub fn cross(&self, other: &Vec) -> (r: Vec)
        requires
            self.wf(),
            other.wf(),
        ensures
            r == self.cross_spec(*other),
            r.wf(),
    {
        proof {
            lemma_prod_bound(self.y as int, other.z as int);
            lemma_prod_bound(self.z as int, other.y as int);
            lemma_prod_bound(self.z as int, other.x as int);
            lemma_prod_bound(self.x as int, other.z as int);
            lemma_prod_bound(self.x as int, other.y as int);
            lemma_prod_bound(self.y as int, other.x as int);
        }
        let (ax, ay, az) = (self.x as i128, self.y as i128, self.z as i128);
        let (bx, by, bz) = (other.x as i128, other.y as i128, other.z as i128);
        let one = ONE as i128;
        Vec {
            x: saturate(floor_div(ay * bz - az * by, one)),
            y: saturate(floor_div(az * bx - ax * bz, one)),
            z: saturate(floor_div(ax * by - ay * bx, one)),
        }
    }

    /// The exact sum of the component products, in units of `ONE * ONE`.
    pub fn dot_exact(&self, other: &Vec) -> (r: i128)
        requires
            self.wf(),
            other.wf(),
        ensures
            r == self.raw_dot(*other),
            -0x3000_0000_0000_0000 <= r <= 0x3000_0000_0000_0000,
    {
        proof {
            lemma_prod_bound(self.x as int, other.x as int);
            lemma_prod_bound(self.y as int, other.y as int);
            lemma_prod_bound(self.z as int, other.z as int);
        }
        self.x as i128 * other.x as i128 + self.y as i128 * other.y as i128 + self.z as i128
            * other.z as i128
    }

    pub fn len_sqrd(&self) -> (r: i64)
        requires
            self.wf(),
        ensures
            r == self.len_sqrd_spec(),
            in_range(r as int),
    {
        self.dot(self)
    }

    pub fn len(&self) -> (r: i64)
        requires
            self.wf(),
        ensures
            r == self.len_spec(),
            0 <= r <= LIM,
            !self.is_zero() ==> r >= 1,
    {
        proof {
            lemma_prod_bound(self.x as int, self.x as int);
            lemma_prod_bound(self.y as int, self.y as int);
            lemma_prod_bound(self.z as int, self.z as int);
            assert(self.x * self.x >= 0 && self.y * self.y >= 0 && self.z * self.z >= 0)
                by (nonlinear_arith);
        }
        let (x, y, z) = (self.x as i128, self.y as i128, self.z as i128);
        let s: i128 = x * x + y * y + z * z;
        let root = isqrt_exec(s as u128);
        proof {
            assert(root * root <= s);
            assert(root <= 0x1_0000_0000) by (nonlinear_arith)
                requires
                    root * root <= s,
                    s <= 0x3000_0000_0000_0000,
                    root >= 0,
            ;
            if !self.is_zero() {
                assert(s >= 1) by (nonlinear_arith)
                    requires
                        s == x * x + y * y + z * z,
                        x != 0 || y != 0 || z != 0,
                ;
                assert(fixed::is_isqrt(root as int, s as int));
                assert(root >= 1) by (nonlinear_arith)
                    requires
                        s < (root + 1) * (root + 1),
                        s >= 1,
                        root >= 0,
                ;
            }
        }
        saturate(root as i128)
    }

    /// `self` scaled to unit length.
    pub fn unit(&self) -> (r: Vec)
        requires
            self.wf(),
            !self.is_zero(),
        ensures
            r == self.unit_spec(),
            r.wf(),
            ONE - 4 <= r.len_spec() <= ONE + 4,
            -ONE <= r.x <= ONE && -ONE <= r.y <= ONE && -ONE <= r.z <= ONE,
    {
        let s = self.dot_exact(self);
        proof {
            assert(1 <= s) by (nonlinear_arith)
                requires
                    s == self.x * self.x + self.y * self.y + self.z * self.z,
                    self.x != 0 || self.y != 0 || self.z != 0,
            ;
            lemma_unit_length(*self);
        }
        let one2: i128 = ONE as i128 * ONE as i128;
        let l = isqrt_exec(s as u128 * one2 as u128);
        proof {
            let n = s * (ONE * ONE);
            assert(n <= 0x4000_0000_0000_0000_0000_0000) by (nonlinear_arith)
                requires
                    n == s * (ONE * ONE),
                    s <= 0x3000_0000_0000_0000,
            ;
            assert(l <= 0x1_0000_0000_0000) by (nonlinear_arith)
                requires
                    l * l <= n,
                    n <= 0x4000_0000_0000_0000_0000_0000,
                    l >= 0,
            ;
            assert(l == self.fine_len());
            assert(forall|a: int| #[trigger] (a * one2) == a * (ONE * ONE));
        }
        let l = l as i128;
        Vec {
            x: saturate(floor_div(self.x as i128 * one2, l)),
            y: saturate(floor_div(self.y as i128 * one2, l)),
            z: saturate(floor_div(self.z as i128 * one2, l)),
        }
    }

    /// Mirror reflection about the normal `v`.
    pub fn reflect(&self, v: &Vec) -> (r: Vec)
        requires
            self.wf(),
            v.wf(),
        ensures
            r == self.reflect_spec(*v),
            r.wf(),
    {
        let d = self.dot(v);
        let k = fadd(d, d);
        let s = v.mulf(k);
        let r = self.sub(&[s]);
        proof {
            reveal_with_fuel(diff_all, 2);
            assert(seq![s].drop_last() =~= Seq::<Vec>::empty());
        }
        r
    }

    /// Snell refraction of the unit direction `self` about the unit normal `n`,
    /// `e` being the ratio of the refractive indices.
    pub fn refract(&self, n: &Vec, e: i64) -> (r: Vec)
        requires
            self.wf(),
            n.wf(),
            in_range(e as int),
        ensures
            r == self.refract_spec(*n, e as int),
            r.wf(),
    {
        let d = self.mulf(-ONE).dot(n);
        let c = if d < ONE {
            d
        } else {
            ONE
        };
        let perp = self.add(&[n.mulf(c)]).mulf(e);
        let q = fsub(ONE, perp.len_sqrd());
        let mag = fsqrt(if q < 0 {
            -q
        } else {
            q
        });
        let along = n.mulf(-mag);
        let r = perp.add(&[along]);
        proof {
            reveal_with_fuel(sum_all, 2);
            assert(seq![n.scale(c as int)].drop_last() =~= Seq::<Vec>::empty());
            assert(seq![along].drop_last() =~= Seq::<Vec>::empty());
        }
        r
    }

    /// The sample `self` turned, if need be, into the hemisphere about `n`.
    pub fn hemisphere(&self, n: &Vec) -> (r: Vec)
        requires
            self.wf(),
            n.wf(),
        ensures
            r == (if self.raw_dot(*n) > 0 {
                *self
            } else {
                self.neg()
            }),
            r.wf(),
            r.dot_spec(*n) >= 0,
            r.raw_dot(r) == self.raw_dot(*self),
    {
        proof {
            lemma_signed_unit(self.x as int, -1);
            lemma_signed_unit(self.y as int, -1);
            lemma_signed_unit(self.z as int, -1);
            let m = self.neg();
            assert(m.x == -self.x && m.y == -self.y && m.z == -self.z);
            assert(m.raw_dot(*n) == -self.raw_dot(*n)) by (nonlinear_arith)
                requires
                    m.x == -self.x,
                    m.y == -self.y,
                    m.z == -self.z,
            ;
            assert(m.raw_dot(m) == self.raw_dot(*self)) by (nonlinear_arith)
                requires
                    m.x == -self.x,
                    m.y == -self.y,
                    m.z == -self.z,
            ;
            if self.raw_dot(*n) > 0 {
                vstd::arithmetic::div_mod::lemma_div_pos_is_pos(self.raw_dot(*n), ONE as int);
            } else {
                vstd::arithmetic::div_mod::lemma_div_pos_is_pos(m.raw_dot(*n), ONE as int);
            }
        }
        if self.dot_exact(n) > 0 {
            *self
        } else {
            self.mulf(-ONE)
        }
    }

    /// Whether every component vanishes at this resolution.
    pub fn near_zero(&self) -> (r: bool)
        ensures
            r == self.is_zero(),
    {
        self.x == 0 && self.y == 0 && self.z == 0
    }
}

pub open spec fn pow2(k: nat) -> int
    decreases k,
{
    if k == 0 {
        1
    } else {
        2 * pow2((k - 1) as nat)
    }
}

/// The only integer points at distance `2^k` from the origin lie on the axes.
proof fn lemma_axis_points(x: int, y: int, z: int, k: nat)
    requires
        x * x + y * y + z * z == pow2(k) * pow2(k),
    ensures
        (x == 0 && y == 0 && (z == pow2(k) || z == -pow2(k))) || (x == 0 && z == 0 && (y == pow2(k)
            || y == -pow2(k))) || (y == 0 && z == 0 && (x == pow2(k) || x == -pow2(k))),
    decreases k,
{
    if k == 0 {
        let p0 = pow2(k);
        assert(p0 == 1);
        assert(p0 * p0 == 1) by (nonlinear_arith)
            requires
                p0 == 1,
        ;
        assert(-1 <= x <= 1 && -1 <= y <= 1 && -1 <= z <= 1) by (nonlinear_arith)
            requires
                x * x + y * y + z * z == 1,
        ;
        assert((x == 0 && y == 0 && (z == 1 || z == -1)) || (x == 0 && z == 0 && (y == 1 || y
            == -1)) || (y == 0 && z == 0 && (x == 1 || x == -1))) by (nonlinear_arith)
            requires
                x * x + y * y + z * z == 1,
                -1 <= x <= 1,
                -1 <= y <= 1,
                -1 <= z <= 1,
        ;
    } else {
        let p = pow2((k - 1) as nat);
        assert(pow2(k) * pow2(k) == 4 * (p * p)) by (nonlinear_arith)
            requires
                pow2(k) == 2 * p,
        ;
        let (a, b, c) = (x / 2, y / 2, z / 2);
        let (ra, rb, rc) = (x % 2, y % 2, z % 2);
        vstd::arithmetic::div_mod::lemma_fundamental_div_mod(x, 2);
        vstd::arithmetic::div_mod::lemma_fundamental_div_mod(y, 2);
        vstd::arithmetic::div_mod::lemma_fundamental_div_mod(z, 2);
        assert(x * x + y * y + z * z == 4 * (a * a + a * ra + b * b + b * rb + c * c + c * rc) + ra
            + rb + rc) by (nonlinear_arith)
            requires
                x == 2 * a + ra,
                y == 2 * b + rb,
                z == 2 * c + rc,
                0 <= ra <= 1,
                0 <= rb <= 1,
                0 <= rc <= 1,
        ;
        assert(ra == 0 && rb == 0 && rc == 0);
        assert(a * a + b * b + c * c == p * p) by (nonlinear_arith)
            requires
                x == 2 * a,
                y == 2 * b,
                z == 2 * c,
                x * x + y * y + z * z == 4 * (p * p),
        ;
        lemma_axis_points(a, b, c, (k - 1) as nat);
    }
}

/// Reflection about an exactly unit normal negates the component along it:
/// `reflect(v, n) . n == -(v . n)`. An exactly unit normal, `n . n == 1` with
/// no rounding, is one of the six axis directions; the components of `v` stay
/// within half the range, so that doubling them does not saturate.
pub proof fn lemma_reflect_normal_component(v: Vec, n: Vec)
    requires
        v.wf(),
        n.raw_dot(n) == ONE * ONE,
        2 * abs_spec(v.x as int) <= LIM,
        2 * abs_spec(v.y as int) <= LIM,
        2 * abs_spec(v.z as int) <= LIM,
    ensures
        v.reflect_spec(n).dot_spec(n) == -v.dot_spec(n),
{
    lemma_unit_normal_axis(n);
    let sg: int = if n.x + n.y + n.z > 0 {
        1
    } else {
        -1
    };
    lemma_signed_unit(v.x as int, sg);
    lemma_signed_unit(v.y as int, sg);
    lemma_signed_unit(v.z as int, sg);
    let d = v.dot_spec(n);
    let k = sat(2 * d);
    lemma_signed_unit(k, sg);
    let rf = v.reflect_spec(n);
    lemma_signed_unit(rf.x as int, sg);
    lemma_signed_unit(rf.y as int, sg);
    lemma_signed_unit(rf.z as int, sg);
}

/// One component of a unit vector: `q = floor(x * ONE / l)`, where `x` is the
/// component in units of `ONE * ONE` and `l` the length in the same units;
/// `e` is the remainder, the error that the rounding leaves in `q * l`.
proof fn lemma_unit_component(x: int, l: int) -> (qe: (int, int))
    requires
        ONE <= l,
        x * x < (l + 1) * (l + 1),
    ensures
        x * ONE == qe.0 * l + qe.1,
        0 <= qe.1 < l,
        qe.0 == div_floor(x * ONE, l),
        -ONE <= qe.0 <= ONE,
        -l <= x <= l,
        x * qe.1 <= l * l,
        -(x * qe.1) <= l * l,
        (qe.0 * qe.0) * (l * l) == (x * x) * (ONE * ONE) - 2 * ONE * (x * qe.1) + qe.1 * qe.1,
{
    assert(-l <= x <= l) by (nonlinear_arith)
        requires
            x * x < (l + 1) * (l + 1),
            l >= 0,
    ;
    let q = (x * ONE) / l;
    let e = (x * ONE) % l;
    vstd::arithmetic::div_mod::lemma_fundamental_div_mod(x * ONE, l);
    assert(x * ONE == q * l + e);
    assert(-ONE <= q <= ONE) by (nonlinear_arith)
        requires
            x * ONE == q * l + e,
            0 <= e < l,
            -l <= x <= l,
            l > 0,
    ;
    assert(x * e <= l * l && -(x * e) <= l * l) by (nonlinear_arith)
        requires
            0 <= e < l,
            -l <= x <= l,
    ;
    assert((q * q) * (l * l) == (x * x) * (ONE * ONE) - 2 * ONE * (x * e) + e * e) by (nonlinear_arith)
        requires
            x * ONE == q * l + e,
    ;
    (q, e)
}

/// A unit vector has length one to within four units of the last place, and
/// each of its components lies within one.
pub proof fn lemma_unit_length(v: Vec)
    requires
        v.wf(),
        !v.is_zero(),
    ensures
        ONE - 4 <= v.unit_spec().len_spec() <= ONE + 4,
        -ONE <= v.unit_spec().x <= ONE,
        -ONE <= v.unit_spec().y <= ONE,
        -ONE <= v.unit_spec().z <= ONE,
        v.fine_len() >= ONE,
{
    let big = ONE as int;
    let s0 = v.raw_dot(v);
    assert(s0 >= 1) by (nonlinear_arith)
        requires
            s0 == v.x * v.x + v.y * v.y + v.z * v.z,
            v.x != 0 || v.y != 0 || v.z != 0,
    ;
    let (xx, yy, zz) = (v.x * big, v.y * big, v.z * big);
    let s = s0 * (big * big);
    assert(xx * xx == (v.x * v.x) * (big * big)) by (nonlinear_arith)
        requires
            xx == v.x * big,
    ;
    assert(yy * yy == (v.y * v.y) * (big * big)) by (nonlinear_arith)
        requires
            yy == v.y * big,
    ;
    assert(zz * zz == (v.z * v.z) * (big * big)) by (nonlinear_arith)
        requires
            zz == v.z * big,
    ;
    assert(s == xx * xx + yy * yy + zz * zz) by (nonlinear_arith)
        requires
            s0 == v.x * v.x + v.y * v.y + v.z * v.z,
            s == s0 * (big * big),
            xx * xx == (v.x * v.x) * (big * big),
            yy * yy == (v.y * v.y) * (big * big),
            zz * zz == (v.z * v.z) * (big * big),
    ;
    assert(s >= big * big) by (nonlinear_arith)
        requires
            s == s0 * (big * big),
            s0 >= 1,
    ;
    fixed::lemma_isqrt(s);
    let l = isqrt(s);
    assert(l == v.fine_len());
    assert(big <= l) by (nonlinear_arith)
        requires
            l >= 0,
            s < (l + 1) * (l + 1),
            big * big <= s,
            big > 0,
    ;
    assert(xx * xx <= s && yy * yy <= s && zz * zz <= s) by (nonlinear_arith)
        requires
            s == xx * xx + yy * yy + zz * zz,
    ;
    let (qx, ex) = lemma_unit_component(xx, l);
    let (qy, ey) = lemma_unit_component(yy, l);
    let (qz, ez) = lemma_unit_component(zz, l);
    assert(xx * big == v.x * (big * big) && yy * big == v.y * (big * big) && zz * big == v.z * (big
        * big)) by (nonlinear_arith)
        requires
            xx == v.x * big,
            yy == v.y * big,
            zz == v.z * big,
    ;
    let u = v.unit_spec();
    assert(u.x == qx && u.y == qy && u.z == qz);
    let uu = u.raw_dot(u);
    assert(uu * (l * l) == (qx * qx) * (l * l) + (qy * qy) * (l * l) + (qz * qz) * (l * l))
        by (nonlinear_arith)
        requires
            uu == qx * qx + qy * qy + qz * qz,
    ;
    assert(s * (big * big) == (xx * xx) * (big * big) + (yy * yy) * (big * big) + (zz * zz) * (
    big * big)) by (nonlinear_arith)
        requires
            s == xx * xx + yy * yy + zz * zz,
    ;
    assert(uu * (l * l) == s * (big * big) - 2 * big * (xx * ex + yy * ey + zz * ez) + ex * ex + ey
        * ey + ez * ez) by (nonlinear_arith)
        requires
            uu * (l * l) == (qx * qx) * (l * l) + (qy * qy) * (l * l) + (qz * qz) * (l * l),
            s * (big * big) == (xx * xx) * (big * big) + (yy * yy) * (big * big) + (zz * zz) * (
            big * big),
            (qx * qx) * (l * l) == (xx * xx) * (big * big) - 2 * big * (xx * ex) + ex * ex,
            (qy * qy) * (l * l) == (yy * yy) * (big * big) - 2 * big * (yy * ey) + ey * ey,
            (qz * qz) * (l * l) == (zz * zz) * (big * big) - 2 * big * (zz * ez) + ez * ez,
    ;
    assert(uu >= big * big - 6 * big) by (nonlinear_arith)
        requires
            uu * (l * l) == s * (big * big) - 2 * big * (xx * ex + yy * ey + zz * ez) + ex * ex + ey
                * ey + ez * ez,
            xx * ex + yy * ey + zz * ez <= 3 * (l * l),
            s >= l * l,
            big > 0,
            l > 0,
    ;
    assert((l + 1) * (l + 1) == l * l + 2 * l + 1) by (nonlinear_arith);
    assert(uu <= big * big + 8 * big + 3) by (nonlinear_arith)
        requires
            uu * (l * l) == s * (big * big) - 2 * big * (xx * ex + yy * ey + zz * ez) + ex * ex + ey
                * ey + ez * ez,
            -(xx * ex + yy * ey + zz * ez) <= 3 * (l * l),
            s <= l * l + 2 * l,
            0 <= ex < l,
            0 <= ey < l,
            0 <= ez < l,
            big <= l,
            big > 0,
    ;
    fixed::lemma_isqrt(uu);
    let m = isqrt(uu);
    assert(big - 4 <= m <= big + 4) by (nonlinear_arith)
        requires
            0 <= m,
            m * m <= uu,
            uu < (m + 1) * (m + 1),
            big * big - 6 * big <= uu <= big * big + 8 * big + 3,
            big == 65536,
    ;
}

/// An exactly unit vector lies along an axis.
pub proof fn lemma_unit_normal_axis(n: Vec)
    requires
        n.raw_dot(n) == ONE * ONE,
    ensures
        (n.x == 0 && n.y == 0 && (n.z == ONE || n.z == -ONE)) || (n.x == 0 && n.z == 0 && (n.y
            == ONE || n.y == -ONE)) || (n.y == 0 && n.z == 0 && (n.x == ONE || n.x == -ONE)),
{
    reveal_with_fuel(pow2, 17);
    assert(pow2(16) == ONE);
    lemma_axis_points(n.x as int, n.y as int, n.z as int, 16);
}

/// Reflection about a normal of length one to within four units (as `unit`
/// gives) negates the component along it, up to rounding:
/// `ONE * |reflect(v, n) . n + v . n| <= 5 ONE + 17 |v . n|`, that is, to
/// within five units and a relative error of `17 / 65536`. The components of
/// `v` stay within an eighth of the range, so that nothing saturates.
pub proof fn lemma_reflect_near_unit_normal(v: Vec, n: Vec)
    requires
        n.wf(),
        -134217728 <= v.x <= 134217728,
        -134217728 <= v.y <= 134217728,
        -134217728 <= v.z <= 134217728,
        ONE * ONE - 8 * ONE <= n.raw_dot(n) <= ONE * ONE + 8 * ONE + 3,
    ensures
        ({
            let d = v.dot_spec(n);
            let f = v.reflect_spec(n).dot_spec(n);
            &&& -(5 * ONE + 17 * abs_spec(d)) <= ONE * (f + d) <= 5 * ONE + 17 * abs_spec(d)
        }),
{
    let nn = n.raw_dot(n);
    assert(-65541 <= n.x <= 65541 && -65541 <= n.y <= 65541 && -65541 <= n.z <= 65541)
        by (nonlinear_arith)
        requires
            nn == n.x * n.x + n.y * n.y + n.z * n.z,
            nn <= 65536 * 65536 + 524291,
    ;
    let p = v.raw_dot(n);
    assert(-(3 * 134217728 * 65541) <= p <= 3 * 134217728 * 65541) by (nonlinear_arith)
        requires
            p == v.x * n.x + v.y * n.y + v.z * n.z,
            -134217728 <= v.x <= 134217728,
            -134217728 <= v.y <= 134217728,
            -134217728 <= v.z <= 134217728,
            -65541 <= n.x <= 65541,
            -65541 <= n.y <= 65541,
            -65541 <= n.z <= 65541,
    ;
    let d = p / 65536;
    let e = p % 65536;
    vstd::arithmetic::div_mod::lemma_fundamental_div_mod(p, 65536);
    assert(-402700000 <= d <= 402700000) by (nonlinear_arith)
        requires
            p == 65536 * d + e,
            0 <= e < 65536,
            -(3 * 134217728 * 65541) <= p <= 3 * 134217728 * 65541,
    ;
    assert(v.dot_spec(n) == d);
    let k = 2 * d;
    assert(sat(2 * v.dot_spec(n)) == k);
    lemma_scaled_floor(n.x as int, k);
    lemma_scaled_floor(n.y as int, k);
    lemma_scaled_floor(n.z as int, k);
    let (wx, wy, wz) = (fx_mul(n.x as int, k), fx_mul(n.y as int, k), fx_mul(n.z as int, k));
    let (ax, ay, az) = (n.x * k - wx * 65536, n.y * k - wy * 65536, n.z * k - wz * 65536);
    let rf = v.reflect_spec(n);
    assert(rf.x == v.x - wx && rf.y == v.y - wy && rf.z == v.z - wz);
    let rr = rf.raw_dot(n);
    lemma_reflect_part(v.x as int, n.x as int, k, wx, ax, rf.x as int);
    lemma_reflect_part(v.y as int, n.y as int, k, wy, ay, rf.y as int);
    lemma_reflect_part(v.z as int, n.z as int, k, wz, az, rf.z as int);
    assert(k * nn == k * (n.x * n.x) + k * (n.y * n.y) + k * (n.z * n.z)) by (nonlinear_arith)
        requires
            nn == n.x * n.x + n.y * n.y + n.z * n.z,
    ;
    assert(65536 * rr == 65536 * p - k * nn + (ax * n.x + ay * n.y + az * n.z));
    assert(-(3 * 65536 * 65541) <= ax * n.x + ay * n.y + az * n.z <= 3 * 65536 * 65541)
        by (nonlinear_arith)
        requires
            0 <= ax < 65536,
            0 <= ay < 65536,
            0 <= az < 65536,
            -65541 <= n.x <= 65541,
            -65541 <= n.y <= 65541,
            -65541 <= n.z <= 65541,
    ;
    let delta = nn - 65536 * 65536;
    assert(k * nn == k * (65536 * 65536) + k * delta) by (nonlinear_arith)
        requires
            delta == nn - 65536 * 65536,
    ;
    assert(-(2 * abs_spec(d) * 524291) <= k * delta <= 2 * abs_spec(d) * 524291) by (nonlinear_arith)
        requires
            k == 2 * d,
            -524288 <= delta <= 524291,
            abs_spec(d) == d || abs_spec(d) == -d,
            abs_spec(d) >= 0,
    ;
    let f = rr / 65536;
    let g = rr % 65536;
    vstd::arithmetic::div_mod::lemma_fundamental_div_mod(rr, 65536);
    assert(65536 * 65536 * (f + d) == 65536 * e - k * delta + (ax * n.x + ay * n.y + az * n.z)
        - 65536 * g) by (nonlinear_arith)
        requires
            65536 * rr == 65536 * p - k * nn + (ax * n.x + ay * n.y + az * n.z),
            k * nn == k * (65536 * 65536) + k * delta,
            k == 2 * d,
            p == 65536 * d + e,
            rr == 65536 * f + g,
    ;
    assert(-(5 * 65536 + 17 * abs_spec(d)) <= 65536 * (f + d) <= 5 * 65536 + 17 * abs_spec(d))
        by (nonlinear_arith)
        requires
            65536 * 65536 * (f + d) == 65536 * e - k * delta + (ax * n.x + ay * n.y + az * n.z) - 65536
                * g,
            0 <= e < 65536,
            0 <= g < 65536,
            -(2 * abs_spec(d) * 524291) <= k * delta <= 2 * abs_spec(d) * 524291,
            -(3 * 65536 * 65541) <= ax * n.x + ay * n.y + az * n.z <= 3 * 65536 * 65541,
            abs_spec(d) >= 0,
    ;
    assert(-LIM <= f <= LIM) by (nonlinear_arith)
        requires
            -(5 * 65536 + 17 * abs_spec(d)) <= 65536 * (f + d) <= 5 * 65536 + 17 * abs_spec(d),
            abs_spec(d) <= 402700000,
            -402700000 <= d <= 402700000,
            LIM == 1073741824,
    ;
    assert(rf.dot_spec(n) == f);
}

/// One term of `reflect(v, n) . n`, scaled by `ONE`.
proof fn lemma_reflect_part(vi: int, ni: int, k: int, wi: int, ai: int, ri: int)
    requires
        ni * k == wi * 65536 + ai,
        ri == vi - wi,
    ensures
        65536 * (ri * ni) == 65536 * (vi * ni) - k * (ni * ni) + ai * ni,
{
    assert(65536 * (ri * ni) == 65536 * (vi * ni) - k * (ni * ni) + ai * ni) by (nonlinear_arith)
        requires
            ni * k == wi * 65536 + ai,
            ri == vi - wi,
    ;
}

/// `fx_mul(a, k)` for a component `a` of a near-unit vector, with its remainder.
proof fn lemma_scaled_floor(a: int, k: int)
    requires
        -65541 <= a <= 65541,
        -805400000 <= k <= 805400000,
    ensures
        0 <= a * k - fx_mul(a, k) * 65536 < 65536,
        -805500000 <= fx_mul(a, k) <= 805500000,
{
    vstd::arithmetic::div_mod::lemma_fundamental_div_mod(a * k, 65536);
    let q = (a * k) / 65536;
    let r = (a * k) % 65536;
    assert(-(65541 * 805400000) <= a * k <= 65541 * 805400000) by (nonlinear_arith)
        requires
            -65541 <= a <= 65541,
            -805400000 <= k <= 805400000,
    ;
    assert(-805500000 <= q <= 805500000) by (nonlinear_arith)
        requires
            a * k == 65536 * q + r,
            0 <= r < 65536,
            -(65541 * 805400000) <= a * k <= 65541 * 805400000,
    ;
}

/// Products with a signed unit, or with zero, divide back exactly.
pub proof fn lemma_signed_unit(a: int, sg: int)
    requires
        sg == 1 || sg == -1,
    ensures
        (a * (sg * ONE)) / (ONE as int) == sg * a,
        ((sg * ONE) * a) / (ONE as int) == sg * a,
        (a * 0) / (ONE as int) == 0,
        (0 * a) / (ONE as int) == 0,
{
    vstd::arithmetic::div_mod::lemma_div_multiples_vanish(sg * a, ONE as int);
    assert(a * (sg * ONE) == ONE * (sg * a)) by (nonlinear_arith);
    assert((sg * ONE) * a == ONE * (sg * a)) by (nonlinear_arith);
    assert(a * 0 == 0 && 0 * a == 0) by (nonlinear_arith);
}

pub open spec fn abs_spec(v: int) -> int {
    if v < 0 {
        -v
    } else {
        v
    }
}

} // verus!
