//! Fixed-point scalars: a real quantity `x` is held as the integer `x * ONE`,
//! rounded toward negative infinity. Results whose magnitude would exceed
//! `LIM` saturate at `LIM`, the way a float runs off to infinity.
use vstd::arithmetic::div_mod::{lemma_fundamental_div_mod, lemma_fundamental_div_mod_converse};
use vstd::prelude::*;

verus! {

/// The fixed-point representation of 1.
pub const ONE: i64 = 65536;

/// The fixed-point representation of 1/2.
pub const HALF: i64 = 32768;

/// The largest magnitude a fixed-point quantity takes (16384 units).
pub const LIM: i64 = 1073741824;

/// Clamps an exact result into the representable range.
pub open spec fn sat(v: int) -> int {
    if v > LIM {
        LIM as int
    } else if v < -LIM {
        -LIM
    } else {
        v
    }
}

pub open spec fn in_range(v: int) -> bool {
    -LIM <= v <= LIM
}

/// Division rounded toward negative infinity (for `d != 0`).
pub open spec fn div_floor(n: int, d: int) -> int {
    if d > 0 {
        n / d
    } else {
        (-n) / (-d)
    }
}

/// Fixed-point product.
pub open spec fn fx_mul(a: int, b: int) -> int {
    sat(div_floor(a * b, ONE as int))
}

/// Fixed-point quotient (for `b != 0`).
pub open spec fn fx_div(a: int, b: int) -> int {
    sat(div_floor(a * ONE, b))
}

pub open spec fn is_isqrt(r: int, n: int) -> bool {
    0 <= r && r * r <= n < (r + 1) * (r + 1)
}

/// The integer square root: the largest `r` with `r * r <= n` (for `n >= 0`).
pub open spec fn isqrt(n: int) -> int {
    choose|r: int| is_isqrt(r, n)
}

/// Fixed-point square root; non-positive arguments give 0.
pub open spec fn fx_sqrt(a: int) -> int {
    if a <= 0 {
        0
    } else {
        isqrt(a * ONE)
    }
}

pub proof fn lemma_isqrt_unique(r: int, s: int, n: int)
    requires
        is_isqrt(r, n),
        is_isqrt(s, n),
    ensures
        r == s,
{
    if r < s {
        assert((r + 1) * (r + 1) <= s * s) by (nonlinear_arith)
            requires
                0 <= r,
                r + 1 <= s,
        ;
    } else if s < r {
        assert((s + 1) * (s + 1) <= r * r) by (nonlinear_arith)
            requires
                0 <= s,
                s + 1 <= r,
        ;
    }
}

pub proof fn lemma_prod_bound(a: int, b: int)
    requires
        in_range(a),
        in_range(b),
    ensures
        -0x1000_0000_0000_0000 <= a * b <= 0x1000_0000_0000_0000,
{
    assert(-0x1000_0000_0000_0000 <= a * b <= 0x1000_0000_0000_0000) by (nonlinear_arith)
        requires
            -LIM <= a <= LIM,
            -LIM <= b <= LIM,
    ;
}

/// Every non-negative integer has an integer square root.
pub proof fn lemma_isqrt(n: int)
    requires
        n >= 0,
    ensures
        is_isqrt(isqrt(n), n),
    decreases n,
{
    if n == 0 {
        assert(is_isqrt(0, 0));
    } else {
        lemma_isqrt(n - 1);
        let r = isqrt(n - 1);
        if (r + 1) * (r + 1) <= n {
            assert(is_isqrt(r + 1, n)) by (nonlinear_arith)
                requires
                    0 <= r,
                    (r + 1) * (r + 1) <= n,
                    n - 1 < (r + 1) * (r + 1),
            ;
        } else {
            assert(is_isqrt(r, n));
        }
    }
}

/// Saturates an exact intermediate into a fixed-point value.
pub fn saturate(v: i128) -> (r: i64)
    ensures
        r == sat(v as int),
{
    if v > LIM as i128 {
        LIM
    } else if v < -(LIM as i128) {
        -LIM
    } else {
        v as i64
    }
}

/// Division rounded toward negative infinity.
pub fn floor_div(n: i128, d: i128) -> (q: i128)
    requires
        d != 0,
        -0x1000_0000_0000_0000_0000_0000_0000_0000 <= n <= 0x1000_0000_0000_0000_0000_0000_0000_0000,
        -0x1000_0000_0000_0000_0000_0000_0000_0000 <= d <= 0x1000_0000_0000_0000_0000_0000_0000_0000,
    ensures
        q == div_floor(n as int, d as int),
{
    let (nn, dd) = if d > 0 {
        (n, d)
    } else {
        (-n, -d)
    };
    assert(div_floor(n as int, d as int) == (nn as int) / (dd as int));
    if nn >= 0 {
        nn / dd
    } else {
        let m: i128 = -nn;
        let q: i128 = m / dd;
        let r: i128 = m % dd;
        proof {
            lemma_fundamental_div_mod(m as int, dd as int);
            assert(nn == (-q) * dd - r) by (nonlinear_arith)
                requires
                    m == dd * q + r,
                    nn == -m,
            ;
        }
        if r == 0 {
            proof {
                lemma_fundamental_div_mod_converse(nn as int, dd as int, -q, 0);
            }
            -q
        } else {
            proof {
                assert(nn == (-q - 1) * dd + (dd - r)) by (nonlinear_arith)
                    requires
                        nn == (-q) * dd - r,
                ;
                lemma_fundamental_div_mod_converse(nn as int, dd as int, -q - 1, dd - r);
            }
            -q - 1
        }
    }
}

/// Saturating sum.
pub fn fadd(a: i64, b: i64) -> (r: i64)
    requires
        in_range(a as int),
        in_range(b as int),
    ensures
        r == sat(a + b),
        in_range(r as int),
{
    saturate(a as i128 + b as i128)
}

/// Saturating difference.
pub fn fsub(a: i64, b: i64) -> (r: i64)
    requires
        in_range(a as int),
        in_range(b as int),
    ensures
        r == sat(a - b),
        in_range(r as int),
{
    saturate(a as i128 - b as i128)
}

/// Fixed-point product.
pub fn fmul(a: i64, b: i64) -> (r: i64)
    requires
        in_range(a as int),
        in_range(b as int),
    ensures
        r == fx_mul(a as int, b as int),
        in_range(r as int),
{
    proof {
        assert(-0x1000_0000_0000_0000 <= a * b <= 0x1000_0000_0000_0000) by (nonlinear_arith)
            requires
                -LIM <= a <= LIM,
                -LIM <= b <= LIM,
        ;
    }
    saturate(floor_div(a as i128 * b as i128, ONE as i128))
}

/// Fixed-point quotient.
pub fn fdiv(a: i64, b: i64) -> (r: i64)
    requires
        in_range(a as int),
        in_range(b as int),
        b != 0,
    ensures
        r == fx_div(a as int, b as int),
        in_range(r as int),
{
    saturate(floor_div(a as i128 * ONE as i128, b as i128))
}

/// Integer square root, by bisection.
pub fn isqrt_exec(n: u128) -> (r: u128)
    ensures
        is_isqrt(r as int, n as int),
        r == isqrt(n as int),
{
    let mut lo: u128 = 0;
    let mut hi: u128 = 0x1_0000_0000_0000_0000;
    proof {
        assert(n < hi * hi) by (nonlinear_arith)
            requires
                hi == 0x1_0000_0000_0000_0000u128,
                n <= u128::MAX,
        ;
    }
    while lo + 1 < hi
        invariant
            lo < hi <= 0x1_0000_0000_0000_0000u128,
            lo * lo <= n < hi * hi,
        decreases hi - lo,
    {
        let mid: u128 = lo + (hi - lo) / 2;
        proof {
            assert(mid * mid < 0x1_0000_0000_0000_0000_0000_0000_0000_0000int) by (nonlinear_arith)
                requires
                    0 <= mid < 0x1_0000_0000_0000_0000int,
            ;
        }
        if mid * mid <= n {
            lo = mid;
        } else {
            hi = mid;
        }
    }
    proof {
        assert(hi == lo + 1);
        assert(is_isqrt(lo as int, n as int));
        lemma_isqrt_unique(lo as int, isqrt(n as int), n as int);
    }
    lo
}

/// Fixed-point square root; non-positive arguments give 0.
pub fn fsqrt(a: i64) -> (r: i64)
    requires
        in_range(a as int),
    ensures
        r == fx_sqrt(a as int),
        0 <= r <= LIM,
{
    if a <= 0 {
        0
    } else {
        let r = isqrt_exec(a as u128 * ONE as u128);
        proof {
            let n = a * ONE;
            assert(r <= LIM) by (nonlinear_arith)
                requires
                    r * r <= n,
                    0 <= r,
                    n <= 0x40_0000_0000_0000int,
            ;
        }
        r as i64
    }
}

} // verus!
