use vstd::prelude::*;
use crate::fixed::{
    FX_ONE, clamp_fx, clamp_s, fx_div, fx_div_s, fx_mul, fx_mul_s, idiv, lemma_mul_le,
    lemma_tdiv_le, tdiv,
};

verus! {

/// The circle constants at the fixed-point scale.
pub const PI: i64 = 205887;

pub const HALF_PI: i64 = 102944;

pub const TAU: i64 = 411774;

/// Truncated series for the sine on a quarter turn; the executable
/// trigonometric functions compute exactly this polynomial, clamped into the
/// unit range.
pub open spec fn sin_poly_s(t: int) -> int {
    let t2 = fx_mul_s(t, t);
    let t3 = fx_mul_s(t2, t);
    let t5 = fx_mul_s(t3, t2);
    clamp_s(t - tdiv(t3, 6) + tdiv(t5, 120), 0, FX_ONE as int)
}

pub open spec fn sin_s(x: int) -> int
    recommends
        0 <= x <= TAU + HALF_PI,
{
    let x1 = if x >= TAU {
        x - TAU
    } else {
        x
    };
    if x1 <= HALF_PI {
        sin_poly_s(x1)
    } else if x1 <= PI {
        sin_poly_s(PI - x1)
    } else if x1 <= PI + HALF_PI {
        -sin_poly_s(x1 - PI)
    } else {
        -sin_poly_s(TAU - x1)
    }
}

pub open spec fn cos_s(x: int) -> int
    recommends
        0 <= x <= TAU,
{
    sin_s(x + HALF_PI)
}

pub open spec fn tan_s(x: int) -> int
    recommends
        0 <= x < HALF_PI,
        cos_s(x) >= 1,
{
    fx_div_s(sin_s(x), cos_s(x))
}

fn sin_quarter(t: i64) -> (r: i64)
    requires
        0 <= t <= HALF_PI,
    ensures
        r as int == sin_poly_s(t as int),
        0 <= r <= FX_ONE,
{
    proof {
        lemma_mul_le(t as int, t as int, 0x2_0000, 0x2_0000);
    }
    let t2: i64 = fx_mul(t, t);
    proof {
        lemma_tdiv_le((t as int) * (t as int), FX_ONE as int, 0x4_0000_0000);
        lemma_mul_le(t2 as int, t as int, 0x4_0000, 0x2_0000);
    }
    let t3: i64 = fx_mul(t2, t);
    proof {
        lemma_tdiv_le((t2 as int) * (t as int), FX_ONE as int, 0x8_0000_0000);
        lemma_mul_le(t3 as int, t2 as int, 0x8_0000, 0x4_0000);
    }
    let t5: i64 = fx_mul(t3, t2);
    proof {
        lemma_tdiv_le((t3 as int) * (t2 as int), FX_ONE as int, 0x20_0000_0000);
    }
    let s: i64 = t - idiv(t3, 6) + idiv(t5, 120);
    clamp_fx(s, 0, FX_ONE)
}

/// Sine of a nonnegative fixed-point angle, taken over at most one and a
/// quarter turns past a full circle.
pub fn sin_fx(x: i64) -> (r: i64)
    requires
        0 <= x <= TAU + HALF_PI,
    ensures
        r as int == sin_s(x as int),
        -FX_ONE <= r <= FX_ONE,
{
    let x1: i64 = if x >= TAU {
        x - TAU
    } else {
        x
    };
    if x1 <= HALF_PI {
        sin_quarter(x1)
    } else if x1 <= PI {
        sin_quarter(PI - x1)
    } else if x1 <= PI + HALF_PI {
        -sin_quarter(x1 - PI)
    } else {
        -sin_quarter(TAU - x1)
    }
}

pub fn cos_fx(x: i64) -> (r: i64)
    requires
        0 <= x <= TAU,
    ensures
        r as int == cos_s(x as int),
        -FX_ONE <= r <= FX_ONE,
{
    sin_fx(x + HALF_PI)
}

pub fn tan_fx(x: i64) -> (r: i64)
    requires
        0 <= x < HALF_PI,
        cos_s(x as int) >= 1,
    ensures
        r as int == tan_s(x as int),
{
    let s: i64 = sin_fx(x);
    let c: i64 = cos_fx(x);
    fx_div(s, c)
}

} // verus!
