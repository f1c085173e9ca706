//! Transparent surfaces that refract, and reflect by Schlick's approximation.
use crate::fixed::{fadd, fdiv, fmul, fsqrt, fsub, fx_div, fx_mul, fx_sqrt, in_range, sat, LIM, ONE};
use crate::hittable::HitRecord;
use crate::material::{Draw, Material};
use crate::ray::Ray;
use crate::fixed;
use crate::fixed::isqrt;
use crate::vec::{abs_spec, lemma_signed_unit, lemma_unit_length, Colour, Vec};
use vstd::prelude::*;

verus! {

/// Schlick's approximation of the reflectance at incidence cosine `c`, for the
/// index ratio `ri`.
pub open spec fn reflectance_spec(c: int, ri: int) -> int {
    let r0 = fx_div(sat(ONE - ri), sat(ONE + ri));
    let r = fx_mul(r0, r0);
    let m = sat(ONE - c);
    let m2 = fx_mul(m, m);
    let m5 = fx_mul(fx_mul(m2, m2), m);
    sat(r + fx_mul(sat(ONE - r), m5))
}

fn reflectance(c: i64, ri: i64) -> (r: i64)
    requires
        in_range(c as int),
        0 <= ri <= LIM,
    ensures
        r == reflectance_spec(c as int, ri as int),
{
    let r0 = fdiv(fsub(ONE, ri), fadd(ONE, ri));
    let r = fmul(r0, r0);
    let m = fsub(ONE, c);
    let m2 = fmul(m, m);
    let m5 = fmul(fmul(m2, m2), m);
    fadd(r, fmul(fsub(ONE, r), m5))
}

/// A transparent material of refractive index `ir`.
#[derive(Clone, Copy, Debug, PartialEq, Eq, Structural)]
pub struct Dielectric {
    pub ir: i64,
}

impl Dielectric {
    /// The ratio of refractive indices met by a ray entering (`front`) or leaving.
    pub open spec fn ratio(self, front: bool) -> int {
        if front {
            fx_div(ONE as int, self.ir as int)
        } else {
            self.ir as int
        }
    }
}

impl Dielectric {
    pub open spec fn wf(self) -> bool {
        0 < self.ir <= LIM
    }
}

impl Material for Dielectric {
    open spec fn well_formed(&self) -> bool {
        self.wf()
    }

    /// Always scatters, unattenuated: reflects under total internal reflection
    /// or where the uniform draw falls below the reflectance, and refracts
    /// otherwise.
    open spec fn scatter_spec(
        &self,
        r: Ray,
        rec: HitRecord,
        draw: Draw,
        att: Colour,
        scattered: Ray,
    ) -> (bool, Colour, Ray) {
        let rr = self.ratio(rec.front_face);
        let u = r.dir.unit_spec();
        let d = u.neg().dot_spec(rec.n);
        let c = if d < ONE {
            d
        } else {
            ONE as int
        };
        let s = fx_sqrt(sat(ONE - fx_mul(c, c)));
        let dir = if fx_mul(rr, s) > ONE || reflectance_spec(c, rr) > draw.uniform {
            u.reflect_spec(rec.n)
        } else {
            u.refract_spec(rec.n, rr)
        };
        (true, Vec { x: ONE as i64, y: ONE as i64, z: ONE as i64 }, Ray { orig: rec.p, dir })
    }

    fn scatter(
        &self,
        r: &Ray,
        rec: &HitRecord,
        draw: &Draw,
        att: &mut Colour,
        scattered: &mut Ray,
    ) -> (b: bool) {
        *att = Vec { x: ONE, y: ONE, z: ONE };
        let rr = if rec.front_face {
            fdiv(ONE, self.ir)
        } else {
            self.ir
        };
        proof {
            if rec.front_face {
                vstd::arithmetic::div_mod::lemma_div_pos_is_pos(ONE * ONE, self.ir as int);
            }
        }
        let u = r.dir.unit();
        let d = u.mulf(-ONE).dot(&rec.n);
        let c = if d < ONE {
            d
        } else {
            ONE
        };
        let s = fsqrt(fsub(ONE, fmul(c, c)));
        let dir = if fmul(rr, s) > ONE || reflectance(c, rr) > draw.uniform {
            u.reflect(&rec.n)
        } else {
            u.refract(&rec.n, rr)
        };
        *scattered = Ray { orig: rec.p, dir };
        true
    }
}

/// The cosine of incidence that `scatter` and `refract` use: `-u . n`,
/// capped at one.
pub open spec fn incidence(u: Vec, n: Vec) -> int {
    let d = u.neg().dot_spec(n);
    if d < ONE {
        d
    } else {
        ONE as int
    }
}

/// The length of the normal part of the direction refracted with index ratio one.
pub open spec fn along_len(u: Vec, n: Vec) -> int {
    let perp = u.plus(n.scale(incidence(u, n))).scale(ONE as int);
    fx_sqrt(abs_spec(sat(ONE - perp.len_sqrd_spec())))
}

/// A dielectric of index one refracts, with index ratio one, wherever the
/// uniform draw is at least the reflectance: its index never causes total
/// internal reflection.
pub proof fn lemma_index_one_refracts(
    m: Dielectric,
    r: Ray,
    rec: HitRecord,
    draw: Draw,
    att: Colour,
    scattered: Ray,
)
    requires
        m.ir == ONE,
        draw.uniform >= reflectance_spec(incidence(r.dir.unit_spec(), rec.n), ONE as int),
    ensures
        m.scatter_spec(r, rec, draw, att, scattered).2.dir == r.dir.unit_spec().refract_spec(
            rec.n,
            ONE as int,
        ),
{
    let big = ONE as int;
    vstd::arithmetic::div_mod::lemma_div_multiples_vanish(big, big);
    assert(big * big == big * big);
    assert(m.ratio(rec.front_face) == big);
    let u = r.dir.unit_spec();
    let c = incidence(u, rec.n);
    assert(c * c >= 0) by (nonlinear_arith);
    vstd::arithmetic::div_mod::lemma_div_pos_is_pos(c * c, big);
    let a = sat(ONE - fx_mul(c, c));
    if a > 0 {
        fixed::lemma_isqrt(a * big);
        let q = isqrt(a * big);
        assert(q <= big) by (nonlinear_arith)
            requires
                q * q <= a * big,
                a <= big,
                q >= 0,
                big > 0,
        ;
    }
    vstd::arithmetic::div_mod::lemma_div_multiples_vanish(fx_sqrt(a), big);
    assert(big * fx_sqrt(a) == fx_sqrt(a) * big);
}

/// Refraction with index ratio one bends a unit direction `u` only by rounding:
/// about a normal `n` of length one to within four units, opposing `u`, it
/// adds `n * (c - m)` to `u`, to within two units per component, where `c` is
/// the cosine of incidence and `m` the computed length of the normal part,
/// with `|m^2 - c^2| <= 60` units; so no component moves by more than 2000
/// units (0.03).
pub proof fn lemma_refract_index_one(u: Vec, n: Vec)
    requires
        u.wf(),
        n.wf(),
        -ONE <= u.x <= ONE && -ONE <= u.y <= ONE && -ONE <= u.z <= ONE,
        (ONE - 4) * (ONE - 4) <= u.raw_dot(u) < (ONE + 5) * (ONE + 5),
        ONE * ONE - 8 * ONE <= n.raw_dot(n) <= ONE * ONE + 8 * ONE + 3,
        u.raw_dot(n) <= 0,
    ensures
        ({
            let c = incidence(u, n);
            let m = along_len(u, n);
            let res = u.refract_spec(n, ONE as int);
            &&& 0 <= c <= ONE && 0 <= m
            &&& -60 * ONE <= m * m - c * c <= 60 * ONE
            &&& n.x * (c - m) - 2 * ONE < ONE * (res.x - u.x) <= n.x * (c - m)
            &&& n.y * (c - m) - 2 * ONE < ONE * (res.y - u.y) <= n.y * (c - m)
            &&& n.z * (c - m) - 2 * ONE < ONE * (res.z - u.z) <= n.z * (c - m)
            &&& -2000 <= res.x - u.x <= 2000 && -2000 <= res.y - u.y <= 2000 && -2000 <= res.z
                - u.z <= 2000
        }),
{
    let big = ONE as int;
    let uu = u.raw_dot(u);
    let nn = n.raw_dot(n);
    let p = u.raw_dot(n);
    // The components of n lie within ONE + 5.
    assert(-big - 5 <= n.x <= big + 5 && -big - 5 <= n.y <= big + 5 && -big - 5 <= n.z <= big + 5)
        by (nonlinear_arith)
        requires
            nn == n.x * n.x + n.y * n.y + n.z * n.z,
            nn <= big * big + 8 * big + 3,
            big == 65536,
    ;
    assert((big + 5) * (big + 5) == 65536 * 65536 + 655385 && (big - 4) * (big - 4) == 65536
        * 65536 - 524272) by (nonlinear_arith)
        requires
            big == 65536,
    ;
    // Cauchy-Schwarz, in the form 2 |u . n| <= |u|^2 + |n|^2.
    assert(-2 * p <= uu + nn) by (nonlinear_arith)
        requires
            p == u.x * n.x + u.y * n.y + u.z * n.z,
            uu == u.x * u.x + u.y * u.y + u.z * u.z,
            nn == n.x * n.x + n.y * n.y + n.z * n.z,
    ;
    // -u has the components of u negated.
    lemma_signed_unit(u.x as int, -1);
    lemma_signed_unit(u.y as int, -1);
    lemma_signed_unit(u.z as int, -1);
    let nu = u.neg();
    assert(nu.x == -u.x && nu.y == -u.y && nu.z == -u.z);
    assert(nu.raw_dot(n) == -p) by (nonlinear_arith)
        requires
            nu.x == -u.x,
            nu.y == -u.y,
            nu.z == -u.z,
            p == u.x * n.x + u.y * n.y + u.z * n.z,
    ;
    // The cosine: -p = c * ONE + e with 0 <= e < 9 ONE.
    let c0 = (-p) / big;
    let e0 = (-p) % big;
    vstd::arithmetic::div_mod::lemma_fundamental_div_mod(-p, big);
    assert(0 <= c0 <= big + 9) by (nonlinear_arith)
        requires
            -p == big * c0 + e0,
            0 <= e0 < big,
            0 <= -p,
            -2 * p <= 2 * big * big + 18 * big + 28,
            big == 65536,
    ;
    let c = incidence(u, n);
    assert(c == if c0 < big { c0 } else { big });
    let e = -p - c * big;
    assert(0 <= e < 10 * big);
    // The tangential part: n_i c = w_i ONE + b_i.
    let wx = fx_mul(n.x as int, c);
    let wy = fx_mul(n.y as int, c);
    let wz = fx_mul(n.z as int, c);
    let (bx, by, bz) = (n.x * c - wx * big, n.y * c - wy * big, n.z * c - wz * big);
    lemma_floor_parts(n.x as int, c);
    lemma_floor_parts(n.y as int, c);
    lemma_floor_parts(n.z as int, c);
    let perp0 = u.plus(n.scale(c));
    assert(perp0.x == u.x + wx && perp0.y == u.y + wy && perp0.z == u.z + wz);
    let perp = perp0.scale(big);
    lemma_signed_unit(perp0.x as int, 1);
    lemma_signed_unit(perp0.y as int, 1);
    lemma_signed_unit(perp0.z as int, 1);
    assert(perp == perp0);
    let px = u.x + wx;
    let py = u.y + wy;
    let pz = u.z + wz;
    let pp = px * px + py * py + pz * pz;
    assert(perp.raw_dot(perp) == pp);
    // |perp|^2 = ONE^2 - c^2 + E with |E| <= 51 ONE, component by component.
    lemma_perp_component(u.x as int, n.x as int, c, bx, px);
    lemma_perp_component(u.y as int, n.y as int, c, by, py);
    lemma_perp_component(u.z as int, n.z as int, c, bz, pz);
    assert(c * p == c * (u.x * n.x) + c * (u.y * n.y) + c * (u.z * n.z)) by (nonlinear_arith)
        requires
            p == u.x * n.x + u.y * n.y + u.z * n.z,
    ;
    assert((c * c) * nn == (c * c) * (n.x * n.x) + (c * c) * (n.y * n.y) + (c * c) * (n.z * n.z))
        by (nonlinear_arith)
        requires
            nn == n.x * n.x + n.y * n.y + n.z * n.z,
    ;
    assert(c * p == -(c * c) * 65536 - c * e) by (nonlinear_arith)
        requires
            -p == c * 65536 + e,
    ;
    assert(0 <= c * e <= 655360 * 65536) by (nonlinear_arith)
        requires
            0 <= e < 655360,
            0 <= c <= 65536,
    ;
    assert(-(65536 * 65536) * 524291 <= (c * c) * nn - (c * c) * (65536 * 65536) <= (65536 * 65536)
        * 524291) by (nonlinear_arith)
        requires
            65536 * 65536 - 524288 <= nn <= 65536 * 65536 + 524291,
            0 <= c <= 65536,
    ;
    lemma_cross_term(u.x as int, n.x as int, c, bx);
    lemma_cross_term(u.y as int, n.y as int, c, by);
    lemma_cross_term(u.z as int, n.z as int, c, bz);
    assert((65536 * 65536) * pp == (65536 * 65536) * (px * px) + (65536 * 65536) * (py * py) + (
    65536 * 65536) * (pz * pz));
    assert((65536 * 65536) * uu == (65536 * 65536) * (u.x * u.x) + (65536 * 65536) * (u.y * u.y) + (
    65536 * 65536) * (u.z * u.z));
    assert(-3145761 <= pp - (65536 * 65536 - c * c) <= 1966140);
    assert(-51 * big <= pp - (big * big - c * c) <= 51 * big);
    // The normal part's length m: |m^2 - c^2| <= 60 ONE.
    let lp = pp / big;
    vstd::arithmetic::div_mod::lemma_fundamental_div_mod(pp, big);
    assert(0 <= pp) by (nonlinear_arith)
        requires
            pp == px * px + py * py + pz * pz,
    ;
    assert(pp <= 2 * big * big);
    assert(perp.len_sqrd_spec() == lp);
    let q = big - lp;
    assert(-52 * big <= big * q - c * c <= 52 * big) by (nonlinear_arith)
        requires
            pp == big * lp + pp % big,
            0 <= pp % big < big,
            q == big - lp,
            -51 * big <= pp - (big * big - c * c) <= 51 * big,
    ;
    assert(sat(ONE - lp) == q);
    let aq = abs_spec(q);
    let mm = along_len(u, n);
    if aq > 0 {
        fixed::lemma_isqrt(aq * big);
        assert(mm == isqrt(aq * big));
        assert(-60 * big <= mm * mm - c * c <= 60 * big) by (nonlinear_arith)
            requires
                mm >= 0,
                mm * mm <= aq * big,
                aq * big < (mm + 1) * (mm + 1),
                aq == q || aq == -q,
                aq == -q ==> q < 0,
                -52 * big <= big * q - c * c <= 52 * big,
                0 <= c <= big,
                big == 65536,
        ;
    } else {
        assert(mm == 0);
        assert(c * c <= 52 * big) by (nonlinear_arith)
            requires
                q == 0,
                -52 * big <= big * q - c * c,
        ;
    }
    // The bound on |m - c| and so on each component.
    assert(-1983 <= mm - c <= 1983) by (nonlinear_arith)
        requires
            -60 * big <= mm * mm - c * c <= 60 * big,
            mm >= 0,
            c >= 0,
            big == 65536,
    ;
    let gx = fx_mul(n.x as int, -mm);
    let gy = fx_mul(n.y as int, -mm);
    let gz = fx_mul(n.z as int, -mm);
    assert(mm <= big + 1984);
    lemma_floor_parts(n.x as int, -mm);
    lemma_floor_parts(n.y as int, -mm);
    lemma_floor_parts(n.z as int, -mm);
    let along = n.scale(-mm);
    let res = u.refract_spec(n, ONE as int);
    assert(res == perp.plus(along));
    assert(res.x == u.x + wx + gx && res.y == u.y + wy + gy && res.z == u.z + wz + gz);
    assert(n.x * c - bx + n.x * -mm - (n.x * -mm - gx * big) == big * (res.x - u.x));
    assert(n.y * c - by + n.y * -mm - (n.y * -mm - gy * big) == big * (res.y - u.y));
    assert(n.z * c - bz + n.z * -mm - (n.z * -mm - gz * big) == big * (res.z - u.z));
    assert(n.x * c + n.x * -mm == n.x * (c - mm) && n.y * c + n.y * -mm == n.y * (c - mm) && n.z * c
        + n.z * -mm == n.z * (c - mm)) by (nonlinear_arith);
    assert(0 <= c <= big && 0 <= mm);
    assert(-60 * big <= mm * mm - c * c <= 60 * big);
    assert(-2000 <= res.x - u.x <= 2000 && -2000 <= res.y - u.y <= 2000 && -2000 <= res.z - u.z
        <= 2000) by (nonlinear_arith)
        requires
            big * (res.x - u.x) == n.x * c - bx + n.x * -mm - (n.x * -mm - gx * big),
            big * (res.y - u.y) == n.y * c - by + n.y * -mm - (n.y * -mm - gy * big),
            big * (res.z - u.z) == n.z * c - bz + n.z * -mm - (n.z * -mm - gz * big),
            0 <= bx < big,
            0 <= by < big,
            0 <= bz < big,
            0 <= n.x * -mm - gx * big < big,
            0 <= n.y * -mm - gy * big < big,
            0 <= n.z * -mm - gz * big < big,
            -1983 <= mm - c <= 1983,
            -big - 5 <= n.x <= big + 5,
            -big - 5 <= n.y <= big + 5,
            -big - 5 <= n.z <= big + 5,
            big == 65536,
    ;
}

/// A dielectric of index one leaves the unit incoming direction unchanged up
/// to rounding wherever the uniform draw is at least the reflectance (the
/// Schlick reflection being the only way it turns a ray): about a normal of
/// length one to within four units that opposes the ray, no component of the
/// outgoing direction differs from the unit incoming one by more than 2000
/// units (0.03).
pub proof fn lemma_index_one_keeps_direction(
    m: Dielectric,
    r: Ray,
    rec: HitRecord,
    draw: Draw,
    att: Colour,
    scattered: Ray,
)
    requires
        m.ir == ONE,
        r.dir.wf(),
        !r.dir.is_zero(),
        rec.n.wf(),
        ONE * ONE - 8 * ONE <= rec.n.raw_dot(rec.n) <= ONE * ONE + 8 * ONE + 3,
        r.dir.unit_spec().raw_dot(rec.n) <= 0,
        draw.uniform >= reflectance_spec(incidence(r.dir.unit_spec(), rec.n), ONE as int),
    ensures
        ({
            let u = r.dir.unit_spec();
            let d = m.scatter_spec(r, rec, draw, att, scattered).2.dir;
            &&& -2000 <= d.x - u.x <= 2000
            &&& -2000 <= d.y - u.y <= 2000
            &&& -2000 <= d.z - u.z <= 2000
        }),
{
    let u = r.dir.unit_spec();
    lemma_unit_length(r.dir);
    let uu = u.raw_dot(u);
    assert(uu >= 0) by (nonlinear_arith)
        requires
            uu == u.x * u.x + u.y * u.y + u.z * u.z,
    ;
    fixed::lemma_isqrt(uu);
    let k = isqrt(uu);
    assert(k == u.len_spec());
    assert((ONE - 4) * (ONE - 4) <= uu < (ONE + 5) * (ONE + 5)) by (nonlinear_arith)
        requires
            k * k <= uu,
            uu < (k + 1) * (k + 1),
            ONE - 4 <= k <= ONE + 4,
    ;
    lemma_index_one_refracts(m, r, rec, draw, att, scattered);
    lemma_refract_index_one(u, rec.n);
}

/// One component of the square of the tangential part, scaled by `ONE^2`.
proof fn lemma_perp_component(ui: int, ni: int, c: int, b: int, pi: int)
    requires
        pi * 65536 == ui * 65536 + ni * c - b,
    ensures
        (65536 * 65536) * (pi * pi) == (65536 * 65536) * (ui * ui) + 2 * 65536 * (c * (ui * ni)) + (c
            * c) * (ni * ni) + b * b - 2 * (b * (ui * 65536 + ni * c)),
{
    let a = ui * 65536;
    let q = ni * c;
    assert((65536 * 65536) * (pi * pi) == (pi * 65536) * (pi * 65536)) by (nonlinear_arith);
    assert((a + q - b) * (a + q - b) == a * a + 2 * (a * q) + q * q + b * b - 2 * (b * (a + q)))
        by (nonlinear_arith);
    assert(a * a == (65536 * 65536) * (ui * ui)) by (nonlinear_arith)
        requires
            a == ui * 65536,
    ;
    assert(a * q == 65536 * (c * (ui * ni))) by (nonlinear_arith)
        requires
            a == ui * 65536,
            q == ni * c,
    ;
    assert(q * q == (c * c) * (ni * ni)) by (nonlinear_arith)
        requires
            q == ni * c,
    ;
    assert((pi * 65536) * (pi * 65536) == (a + q - b) * (a + q - b));
    assert(b * (ui * 65536 + ni * c) == b * (a + q));
    let (t0, t1, t2, t3, t4, t5) = (pi * pi, ui * ui, c * (ui * ni), (c * c) * (ni * ni), b * b, b
        * (a + q));
    assert((65536 * 65536) * t0 == (65536 * 65536) * t1 + 2 * 65536 * t2 + t3 + t4 - 2 * t5)
        by (nonlinear_arith)
        requires
            (65536 * 65536) * t0 == (a + q - b) * (a + q - b),
            (a + q - b) * (a + q - b) == a * a + 2 * (a * q) + q * q + t4 - 2 * t5,
            a * a == (65536 * 65536) * t1,
            a * q == 65536 * t2,
            q * q == t3,
    ;
}

/// The rounding term of one component stays within `2 ONE^3 + 5 ONE^2`.
proof fn lemma_cross_term(ui: int, ni: int, c: int, b: int)
    requires
        -65536 <= ui <= 65536,
        -65541 <= ni <= 65541,
        0 <= c <= 65536,
        0 <= b < 65536,
    ensures
        -(65536 * 65536 * 131077) <= b * (ui * 65536 + ni * c) <= 65536 * 65536 * 131077,
        0 <= b * b <= 65536 * 65536,
{
    assert(0 <= b * b <= 65536 * 65536) by (nonlinear_arith)
        requires
            0 <= b < 65536,
    ;
    assert(-(65536 * 65536) <= ui * 65536 <= 65536 * 65536) by (nonlinear_arith)
        requires
            -65536 <= ui <= 65536,
    ;
    assert(-(65541 * 65536) <= ni * c <= 65541 * 65536) by (nonlinear_arith)
        requires
            -65541 <= ni <= 65541,
            0 <= c <= 65536,
    ;
    assert(-(65536 * 65536 * 131077) <= b * (ui * 65536 + ni * c) <= 65536 * 65536 * 131077)
        by (nonlinear_arith)
        requires
            0 <= b < 65536,
            -(65536 * 131077) <= ui * 65536 + ni * c <= 65536 * 131077,
    ;
}

/// The floor of `a * k / ONE` and its remainder, for a normal component `a`
/// and a factor `k` of at most a few units.
proof fn lemma_floor_parts(a: int, k: int)
    requires
        -ONE - 5 <= a <= ONE + 5,
        -2 * ONE <= k <= 2 * ONE,
    ensures
        0 <= a * k - fx_mul(a, k) * ONE < ONE,
        fx_mul(a, k) == (a * k) / (ONE as int),
        -3 * ONE <= fx_mul(a, k) <= 3 * ONE,
{
    let big = ONE as int;
    vstd::arithmetic::div_mod::lemma_fundamental_div_mod(a * k, big);
    assert(-3 * big * big <= a * k <= 3 * big * big) by (nonlinear_arith)
        requires
            -big - 5 <= a <= big + 5,
            -2 * big <= k <= 2 * big,
            big == 65536,
    ;
    vstd::arithmetic::div_mod::lemma_div_is_ordered(a * k, 3 * big * big, big);
    vstd::arithmetic::div_mod::lemma_div_is_ordered(-3 * big * big, a * k, big);
    vstd::arithmetic::div_mod::lemma_div_multiples_vanish(3 * big, big);
    vstd::arithmetic::div_mod::lemma_div_multiples_vanish(-3 * big, big);
    assert(3 * big * big == big * (3 * big) && -3 * big * big == big * (-3 * big))
        by (nonlinear_arith);
}

} // verus!
