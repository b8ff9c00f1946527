use vstd::prelude::*;
use crate::fixed::{
    FX_ONE, fx_div, fx_div_s, fx_mul, fx_mul_s, fx_sqrt, fx_sqrt_s, is_isqrt, lemma_mul_le,
    lemma_tdiv_exact, lemma_tdiv_le, lemma_tdiv_mul_bound, lemma_tdiv_neg, tdiv,
};
use crate::trig::{TAU, cos_fx, cos_s, sin_fx, sin_s};
pub use crate::trig::PI;

verus! {

/// Magnitude cap for world coordinates (scene points, radii, hit distances).
pub const B_COORD: i64 = 0x400_0000;

/// Magnitude cap for direction vectors; normalized vectors stay within
/// three units of scale.
pub const B_UNIT: i64 = 0x10_0000;

/// Magnitude cap under which the componentwise vector operations are free of
/// overflow.
pub const B_VEC: i64 = 0x40_0000_0000;

/// The mathematical value of a vector: its three components as unbounded
/// integers at the fixed-point scale.
pub ghost struct V3i {
    pub x: int,
    pub y: int,
    pub z: int,
}

pub open spec fn bounded3(v: V3i, b: int) -> bool {
    &&& -b <= v.x <= b
    &&& -b <= v.y <= b
    &&& -b <= v.z <= b
}

pub open spec fn vadd(a: V3i, b: V3i) -> V3i {
    V3i { x: a.x + b.x, y: a.y + b.y, z: a.z + b.z }
}

pub open spec fn vsub(a: V3i, b: V3i) -> V3i {
    V3i { x: a.x - b.x, y: a.y - b.y, z: a.z - b.z }
}

pub open spec fn vneg(a: V3i) -> V3i {
    V3i { x: -a.x, y: -a.y, z: -a.z }
}

pub open spec fn vscale(a: V3i, k: int) -> V3i {
    V3i { x: fx_mul_s(a.x, k), y: fx_mul_s(a.y, k), z: fx_mul_s(a.z, k) }
}

pub open spec fn velem_mul(a: V3i, b: V3i) -> V3i {
    V3i { x: fx_mul_s(a.x, b.x), y: fx_mul_s(a.y, b.y), z: fx_mul_s(a.z, b.z) }
}

pub open spec fn vscale_div(a: V3i, k: int) -> V3i
    recommends
        k != 0,
{
    V3i { x: fx_div_s(a.x, k), y: fx_div_s(a.y, k), z: fx_div_s(a.z, k) }
}

pub open spec fn dot_s(a: V3i, b: V3i) -> int {
    fx_mul_s(a.x, b.x) + fx_mul_s(a.y, b.y) + fx_mul_s(a.z, b.z)
}

pub open spec fn cross_s(a: V3i, b: V3i) -> V3i {
    V3i {
        x: fx_mul_s(a.y, b.z) - fx_mul_s(a.z, b.y),
        y: fx_mul_s(a.z, b.x) - fx_mul_s(a.x, b.z),
        z: fx_mul_s(a.x, b.y) - fx_mul_s(a.y, b.x),
    }
}

pub open spec fn sq_len_s(v: V3i) -> int {
    dot_s(v, v)
}

pub open spec fn len_s(v: V3i) -> int {
    fx_sqrt_s(sq_len_s(v))
}

/// A vector is treated as zero when its squared length truncates to nothing:
/// the smallest squared-length threshold this scale can express.
pub open spec fn near_zero_s(v: V3i) -> bool {
    sq_len_s(v) == 0
}

pub open spec fn norm_s(v: V3i) -> V3i
    recommends
        sq_len_s(v) >= 1,
{
    vscale_div(v, len_s(v))
}

/// Mirror reflection about a normal: `v - n * dot(v, n) * 2`.
pub open spec fn reflect_s(v: V3i, n: V3i) -> V3i {
    vsub(v, vscale(vscale(n, dot_s(v, n)), 2 * FX_ONE as int))
}

/// Snell refraction of `v` about `n` with index ratio `e`; the square root's
/// operand is floored at zero so round-off below the surface cannot produce
/// an undefined value.
pub open spec fn refract_s(v: V3i, n: V3i, e: int) -> V3i {
    let cos = -dot_s(v, n);
    let prep = vscale(vadd(v, vscale(n, cos)), e);
    let rest = FX_ONE as int - sq_len_s(prep);
    let arg = if rest < 0 {
        0
    } else {
        rest
    };
    let para = vscale(vneg(n), fx_sqrt_s(arg));
    vadd(prep, para)
}

proof fn lemma_sq_term_nonneg(a: int)
    ensures
        a * a >= 0,
        0 <= fx_mul_s(a, a),
{
    assert(a * a >= 0) by (nonlinear_arith);
    lemma_tdiv_mul_bound(a * a, FX_ONE as int);
}

pub proof fn lemma_sq_len_nonneg(v: V3i)
    ensures
        sq_len_s(v) >= 0,
        0 <= fx_mul_s(v.x, v.x),
        0 <= fx_mul_s(v.y, v.y),
        0 <= fx_mul_s(v.z, v.z),
        v.x * v.x >= 0,
        v.y * v.y >= 0,
        v.z * v.z >= 0,
{
    lemma_sq_term_nonneg(v.x);
    lemma_sq_term_nonneg(v.y);
    lemma_sq_term_nonneg(v.z);
}

/// Dividing a component by the vector's own length keeps it within three
/// units of scale.
proof fn lemma_unit_div_bound(c: int, sl: int, l: int)
    requires
        c * c <= 65536 * sl + 65535,
        1 <= sl,
        is_isqrt(sl * 65536, l),
    ensures
        256 <= l,
        -(3 * 65536) <= tdiv(c * 65536, l) <= 3 * 65536,
{
    assert(0 <= l && l * l <= sl * 65536 && sl * 65536 < (l + 1) * (l + 1));
    assert(256 <= l) by (nonlinear_arith)
        requires
            1 <= sl,
            0 <= l,
            sl * 65536 < (l + 1) * (l + 1),
    ;
    assert(c * c <= 9 * (l * l)) by (nonlinear_arith)
        requires
            c * c <= 65536 * sl + 65535,
            sl * 65536 < (l + 1) * (l + 1),
            256 <= l,
    ;
    assert(-(3 * l) <= c <= 3 * l) by (nonlinear_arith)
        requires
            c * c <= 9 * (l * l),
            0 <= l,
    ;
    assert(-(3 * l * 65536) <= c * 65536 <= 3 * l * 65536) by (nonlinear_arith)
        requires
            -(3 * l) <= c <= 3 * l,
            0 <= l,
    ;
    lemma_tdiv_le(c * 65536, l, 3 * l * 65536);
    lemma_tdiv_exact(196608, l);
    assert(3 * l * 65536 == 196608 * l) by (nonlinear_arith);
    assert(tdiv(196608 * l, l) == (196608 * l) / l);
}

/// For a vector of at least unit length, dividing a component by the
/// vector's length keeps it within four ulps of one unit of scale.
proof fn lemma_unit_div_tight(c: int, sl: int, l: int)
    requires
        c * c <= 65536 * sl + 65535,
        65536 <= sl,
        is_isqrt(sl * 65536, l),
    ensures
        -65540 <= tdiv(c * 65536, l) <= 65540,
{
    assert(0 <= l && l * l <= sl * 65536 && sl * 65536 < (l + 1) * (l + 1));
    assert(65536 <= l) by (nonlinear_arith)
        requires
            65536 <= sl,
            0 <= l,
            sl * 65536 < (l + 1) * (l + 1),
    ;
    assert(l <= sl) by (nonlinear_arith)
        requires
            l * l <= sl * 65536,
            65536 <= sl,
            0 <= l,
    ;
    assert((l + 1) * (l + 1) == l * l + 2 * l + 1) by (nonlinear_arith);
    assert(65540 * 65540 * (l * l) >= (0x1_0000_0000 + 0x8_0000) * (sl * 65536 - 2 * l - 1))
        by (nonlinear_arith)
        requires
            l * l >= sl * 65536 - 2 * l - 1,
            0 <= l,
    ;
    assert((0x1_0000_0000 + 0x8_0000) * (sl * 65536 - 2 * l - 1) >= 0x1_0000_0000 * (sl * 65536
        + 3 * 65536)) by (nonlinear_arith)
        requires
            65536 <= l,
            l <= sl,
            65536 <= sl,
    ;
    assert(0x1_0000_0000 * (c * c) <= 0x1_0000_0000 * (sl * 65536 + 3 * 65536))
        by (nonlinear_arith)
        requires
            c * c <= sl * 65536 + 3 * 65536,
    ;
    assert(-(65540 * l) <= c * 65536 <= 65540 * l) by (nonlinear_arith)
        requires
            0x1_0000_0000 * (c * c) <= 65540 * 65540 * (l * l),
            0 <= l,
    ;
    lemma_tdiv_le(c * 65536, l, 65540 * l);
    lemma_tdiv_exact(65540, l);
    assert(65540 * l == l * 65540) by (nonlinear_arith);
}

/// A vector of at least unit length normalizes to a vector whose squared
/// length sits within a few ulps of one: truncation can lose or gain only a
/// bounded sliver on each component.
proof fn lemma_norm_sq_len_tight(v: V3i, sl: int, l: int)
    requires
        sl == sq_len_s(v),
        65536 <= sl,
        is_isqrt(sl * 65536, l),
    ensures
        65536 - 10 <= sq_len_s(norm_s(v)) <= 65536 + 8,
{
    crate::fixed::lemma_isqrt_unique(sl * 65536, l);
    assert(0 <= l && l * l <= sl * 65536 && sl * 65536 < (l + 1) * (l + 1));
    assert((l + 1) * (l + 1) == l * l + 2 * l + 1) by (nonlinear_arith);
    assert(65536 <= l) by (nonlinear_arith)
        requires
            65536 <= sl,
            0 <= l,
            sl * 65536 < (l + 1) * (l + 1),
    ;
    assert(l <= sl) by (nonlinear_arith)
        requires
            l * l <= sl * 65536,
            65536 <= sl,
            0 <= l,
    ;
    let x = v.x;
    let y = v.y;
    let z = v.z;
    let ox = tdiv(x * 65536, l);
    let oy = tdiv(y * 65536, l);
    let oz = tdiv(z * 65536, l);
    assert(norm_s(v) == V3i { x: ox, y: oy, z: oz });
    let sq2 = sq_len_s(norm_s(v));
    let cs = x * x + y * y + z * z;
    let os = ox * ox + oy * oy + oz * oz;
    lemma_sq_len_nonneg(v);
    lemma_sq_len_nonneg(norm_s(v));
    lemma_tdiv_mul_bound(x * x, 65536);
    lemma_tdiv_mul_bound(y * y, 65536);
    lemma_tdiv_mul_bound(z * z, 65536);
    assert(65536 * sl <= cs && cs < 65536 * sl + 3 * 65536) by (nonlinear_arith)
        requires
            sl == tdiv(x * x, 65536) + tdiv(y * y, 65536) + tdiv(z * z, 65536),
            65536 * tdiv(x * x, 65536) <= x * x < 65536 * tdiv(x * x, 65536) + 65536,
            65536 * tdiv(y * y, 65536) <= y * y < 65536 * tdiv(y * y, 65536) + 65536,
            65536 * tdiv(z * z, 65536) <= z * z < 65536 * tdiv(z * z, 65536) + 65536,
            cs == x * x + y * y + z * z,
    ;
    lemma_tdiv_mul_bound(ox * ox, 65536);
    lemma_tdiv_mul_bound(oy * oy, 65536);
    lemma_tdiv_mul_bound(oz * oz, 65536);
    assert(65536 * sq2 <= os && os < 65536 * sq2 + 3 * 65536) by (nonlinear_arith)
        requires
            sq2 == tdiv(ox * ox, 65536) + tdiv(oy * oy, 65536) + tdiv(oz * oz, 65536),
            65536 * tdiv(ox * ox, 65536) <= ox * ox < 65536 * tdiv(ox * ox, 65536) + 65536,
            65536 * tdiv(oy * oy, 65536) <= oy * oy < 65536 * tdiv(oy * oy, 65536) + 65536,
            65536 * tdiv(oz * oz, 65536) <= oz * oz < 65536 * tdiv(oz * oz, 65536) + 65536,
            os == ox * ox + oy * oy + oz * oz,
    ;
    // the upper side: the scaled-back components never exceed the originals
    crate::fixed::lemma_tdiv_sq_le(x * 65536, l);
    crate::fixed::lemma_tdiv_sq_le(y * 65536, l);
    crate::fixed::lemma_tdiv_sq_le(z * 65536, l);
    assert((x * 65536) * (x * 65536) == 0x1_0000_0000 * (x * x)) by (nonlinear_arith);
    assert((y * 65536) * (y * 65536) == 0x1_0000_0000 * (y * y)) by (nonlinear_arith);
    assert((z * 65536) * (z * 65536) == 0x1_0000_0000 * (z * z)) by (nonlinear_arith);
    assert((l * l) * os <= 0x1_0000_0000 * cs) by (nonlinear_arith)
        requires
            (l * l) * (ox * ox) <= 0x1_0000_0000 * (x * x),
            (l * l) * (oy * oy) <= 0x1_0000_0000 * (y * y),
            (l * l) * (oz * oz) <= 0x1_0000_0000 * (z * z),
            os == ox * ox + oy * oy + oz * oz,
            cs == x * x + y * y + z * z,
    ;
    assert(65545 * (l * l) > 0x1_0000_0000 * sl + 3 * 0x1_0000_0000) by (nonlinear_arith)
        requires
            l * l >= sl * 65536 - 2 * l,
            l <= sl,
            65536 <= sl,
            65536 <= l,
    ;
    assert(sq2 <= 65536 + 8) by (nonlinear_arith)
        requires
            65536 * sq2 <= os,
            (l * l) * os <= 0x1_0000_0000 * cs,
            cs < 65536 * sl + 3 * 65536,
            65545 * (l * l) > 0x1_0000_0000 * sl + 3 * 0x1_0000_0000,
            65536 <= l,
            0 <= sq2,
            0 <= os,
    ;
    // the lower side: truncation loses less than one divisor per component
    let mx = if x >= 0 { x } else { -x };
    let my = if y >= 0 { y } else { -y };
    let mz = if z >= 0 { z } else { -z };
    assert(mx * 65536 == x * 65536 || mx * 65536 == -(x * 65536)) by (nonlinear_arith)
        requires
            mx == x || mx == -x,
    ;
    assert(my * 65536 == y * 65536 || my * 65536 == -(y * 65536)) by (nonlinear_arith)
        requires
            my == y || my == -y,
    ;
    assert(mz * 65536 == z * 65536 || mz * 65536 == -(z * 65536)) by (nonlinear_arith)
        requires
            mz == z || mz == -z,
    ;
    assert(mx * mx == x * x && my * my == y * y && mz * mz == z * z) by (nonlinear_arith)
        requires
            mx == x || mx == -x,
            my == y || my == -y,
            mz == z || mz == -z,
    ;
    crate::fixed::lemma_tdiv_sq_ge(x * 65536, l, mx * 65536);
    crate::fixed::lemma_tdiv_sq_ge(y * 65536, l, my * 65536);
    crate::fixed::lemma_tdiv_sq_ge(z * 65536, l, mz * 65536);
    assert(mx <= l + 300 && my <= l + 300 && mz <= l + 300) by (nonlinear_arith)
        requires
            mx * mx == x * x,
            my * my == y * y,
            mz * mz == z * z,
            x * x < 65536 * sl + 65536,
            y * y < 65536 * sl + 65536,
            z * z < 65536 * sl + 65536,
            65536 * sl <= l * l + 2 * l,
            0 <= mx,
            0 <= my,
            0 <= mz,
            65536 <= l,
    ;
    assert(0x1_0000_0000 * cs < (l * l) * os + 2 * l * 65536 * (mx + my + mz) + 3 * (l * l))
        by (nonlinear_arith)
        requires
            (x * 65536) * (x * 65536) < (l * l) * (ox * ox) + 2 * l * (mx * 65536) + l * l,
            (y * 65536) * (y * 65536) < (l * l) * (oy * oy) + 2 * l * (my * 65536) + l * l,
            (z * 65536) * (z * 65536) < (l * l) * (oz * oz) + 2 * l * (mz * 65536) + l * l,
            (x * 65536) * (x * 65536) == 0x1_0000_0000 * (x * x),
            (y * 65536) * (y * 65536) == 0x1_0000_0000 * (y * y),
            (z * 65536) * (z * 65536) == 0x1_0000_0000 * (z * z),
            os == ox * ox + oy * oy + oz * oz,
            cs == x * x + y * y + z * z,
    ;
    assert(sq2 >= 65536 - 10) by (nonlinear_arith)
        requires
            0x1_0000_0000 * cs < (l * l) * os + 2 * l * 65536 * (mx + my + mz) + 3 * (l * l),
            mx + my + mz <= 3 * l + 900,
            os < 65536 * sq2 + 3 * 65536,
            65536 * sl <= cs,
            l * l <= sl * 65536,
            65536 <= l,
            0 <= sq2,
    ;
}

/// A component whose square carries at least a third of the squared length
/// keeps, after division by the length, enough magnitude to register in a
/// squared length of its own.
proof fn lemma_norm_comp_low(c: int, sl: int, l: int)
    requires
        1 <= tdiv(c * c, 65536),
        sl <= 3 * tdiv(c * c, 65536),
        1 <= sl,
        is_isqrt(sl * 65536, l),
    ensures
        fx_mul_s(tdiv(c * 65536, l), tdiv(c * 65536, l)) >= 1,
{
    let t = tdiv(c * c, 65536);
    assert(c * c >= 0) by (nonlinear_arith);
    lemma_tdiv_mul_bound(c * c, 65536);
    assert(0 <= l && l * l <= sl * 65536 && sl * 65536 < (l + 1) * (l + 1));
    assert(256 <= l) by (nonlinear_arith)
        requires
            1 <= sl,
            0 <= l,
            sl * 65536 < (l + 1) * (l + 1),
    ;
    let m = if c >= 0 {
        c
    } else {
        -c
    };
    assert(c * c == m * m) by (nonlinear_arith)
        requires
            m == c || m == -c,
    ;
    assert(256 <= m) by (nonlinear_arith)
        requires
            65536 <= m * m,
            0 <= m,
    ;
    assert(l * l <= 3 * (c * c)) by (nonlinear_arith)
        requires
            l * l <= sl * 65536,
            sl <= 3 * t,
            65536 * t <= c * c,
            0 <= t,
    ;
    assert(l <= 2 * m) by (nonlinear_arith)
        requires
            l * l <= 3 * (c * c),
            c * c == m * m,
            0 <= l,
            0 <= m,
    ;
    let qa = tdiv(m * 65536, l);
    assert(m * 65536 >= 0) by (nonlinear_arith)
        requires
            m >= 0,
    ;
    lemma_tdiv_mul_bound(m * 65536, l);
    assert(qa >= 32767) by (nonlinear_arith)
        requires
            qa == tdiv(m * 65536, l),
            m * 65536 < l * tdiv(m * 65536, l) + l,
            l <= 2 * m,
            0 < l,
            65536 <= m * m,
            m * m <= 65536 * t + 65535,
            256 <= m,
    ;
    let q = tdiv(c * 65536, l);
    lemma_tdiv_neg(m * 65536, l);
    assert(c * 65536 == m * 65536 || c * 65536 == -(m * 65536));
    assert(q * q == qa * qa) by (nonlinear_arith)
        requires
            q == qa || q == -qa,
    ;
    assert(q * q >= 1073676289) by (nonlinear_arith)
        requires
            q * q == qa * qa,
            qa >= 32767,
    ;
    lemma_tdiv_mul_bound(q * q, 65536);
}

/// Normalization keeps the heading against a reference vector: when the raw
/// direction's exact projection on `n` is at least a unit square (minus the
/// truncation slack), the normalized direction still points strictly with
/// `n`.
pub proof fn lemma_norm_keeps_heading(n: V3i, raw: V3i)
    requires
        bounded3(n, 0x3_0000),
        bounded3(raw, 0x4_0000),
        sq_len_s(raw) >= 1,
        n.x * raw.x + n.y * raw.y + n.z * raw.z >= 0x1_0000_0000 - 3 * 65536,
    ensures
        dot_s(n, norm_s(raw)) >= 1,
{
    let sl = sq_len_s(raw);
    lemma_sq_len_nonneg(raw);
    lemma_mul_le(raw.x, raw.x, 0x4_0000, 0x4_0000);
    lemma_mul_le(raw.y, raw.y, 0x4_0000, 0x4_0000);
    lemma_mul_le(raw.z, raw.z, 0x4_0000, 0x4_0000);
    lemma_tdiv_le(raw.x * raw.x, 65536, 0x10_0000_0000);
    lemma_tdiv_le(raw.y * raw.y, 65536, 0x10_0000_0000);
    lemma_tdiv_le(raw.z * raw.z, 65536, 0x10_0000_0000);
    assert(sl <= 0x30_0000);
    crate::fixed::lemma_isqrt_exists(sl * 65536);
    let l = len_s(raw);
    assert(is_isqrt(sl * 65536, l));
    assert((l + 1) * (l + 1) == l * l + 2 * l + 1) by (nonlinear_arith);
    assert(256 <= l) by (nonlinear_arith)
        requires
            1 <= sl,
            0 <= l,
            sl * 65536 < (l + 1) * (l + 1),
    ;
    assert(l <= 0x7_0000) by (nonlinear_arith)
        requires
            l * l <= sl * 65536,
            sl <= 0x30_0000,
            0 <= l,
    ;
    let ox = tdiv(raw.x * 65536, l);
    let oy = tdiv(raw.y * 65536, l);
    let oz = tdiv(raw.z * 65536, l);
    assert(norm_s(raw) == V3i { x: ox, y: oy, z: oz });
    crate::fixed::lemma_tdiv_low(raw.x * 65536, l);
    crate::fixed::lemma_tdiv_low(raw.y * 65536, l);
    crate::fixed::lemma_tdiv_low(raw.z * 65536, l);
    let mx = if n.x >= 0 { n.x } else { -n.x };
    let my = if n.y >= 0 { n.y } else { -n.y };
    let mz = if n.z >= 0 { n.z } else { -n.z };
    assert((n.x * ox) * l >= 65536 * (n.x * raw.x) - mx * l) by (nonlinear_arith)
        requires
            l * ox - l < raw.x * 65536 < l * ox + l,
            mx == n.x || mx == -n.x,
            0 <= mx,
            1 <= l,
    ;
    assert((n.y * oy) * l >= 65536 * (n.y * raw.y) - my * l) by (nonlinear_arith)
        requires
            l * oy - l < raw.y * 65536 < l * oy + l,
            my == n.y || my == -n.y,
            0 <= my,
            1 <= l,
    ;
    assert((n.z * oz) * l >= 65536 * (n.z * raw.z) - mz * l) by (nonlinear_arith)
        requires
            l * oz - l < raw.z * 65536 < l * oz + l,
            mz == n.z || mz == -n.z,
            0 <= mz,
            1 <= l,
    ;
    let sno = n.x * ox + n.y * oy + n.z * oz;
    assert(sno * l >= 65536 * (0x1_0000_0000 - 3 * 65536) - (9 * 65536) * l) by (nonlinear_arith)
        requires
            (n.x * ox) * l >= 65536 * (n.x * raw.x) - mx * l,
            (n.y * oy) * l >= 65536 * (n.y * raw.y) - my * l,
            (n.z * oz) * l >= 65536 * (n.z * raw.z) - mz * l,
            sno == n.x * ox + n.y * oy + n.z * oz,
            n.x * raw.x + n.y * raw.y + n.z * raw.z >= 0x1_0000_0000 - 3 * 65536,
            mx + my + mz <= 9 * 65536,
            1 <= l,
    ;
    assert(sno >= 3 * 65536 + 1) by (nonlinear_arith)
        requires
            sno * l >= 65536 * (0x1_0000_0000 - 3 * 65536) - (9 * 65536) * l,
            1 <= l <= 0x7_0000,
    ;
    crate::fixed::lemma_tdiv_low(n.x * ox, 65536);
    crate::fixed::lemma_tdiv_low(n.y * oy, 65536);
    crate::fixed::lemma_tdiv_low(n.z * oz, 65536);
    assert(dot_s(n, norm_s(raw)) >= 1);
}

/// A vector of at least unit length, joined with anything in its own
/// half-space, keeps an exact projection of at least a unit square minus the
/// truncation slack.
pub proof fn lemma_heading_premise(n: V3i, h: V3i)
    requires
        sq_len_s(n) >= 65536,
        dot_s(n, h) >= 0,
    ensures
        n.x * (n.x + h.x) + n.y * (n.y + h.y) + n.z * (n.z + h.z) >= 0x1_0000_0000 - 3 * 65536,
{
    lemma_sq_len_nonneg(n);
    lemma_tdiv_mul_bound(n.x * n.x, 65536);
    lemma_tdiv_mul_bound(n.y * n.y, 65536);
    lemma_tdiv_mul_bound(n.z * n.z, 65536);
    assert(n.x * n.x + n.y * n.y + n.z * n.z >= 0x1_0000_0000);
    crate::fixed::lemma_tdiv_low(n.x * h.x, 65536);
    crate::fixed::lemma_tdiv_low(n.y * h.y, 65536);
    crate::fixed::lemma_tdiv_low(n.z * h.z, 65536);
    assert(n.x * h.x + n.y * h.y + n.z * h.z > -3 * 65536);
    assert(n.x * (n.x + h.x) == n.x * n.x + n.x * h.x) by (nonlinear_arith);
    assert(n.y * (n.y + h.y) == n.y * n.y + n.y * h.y) by (nonlinear_arith);
    assert(n.z * (n.z + h.z) == n.z * n.z + n.z * h.z) by (nonlinear_arith);
}

/// Three-component vector of fixed-point scalars; doubles as a point and as a
/// color.
#[derive(Debug, Clone, Copy, PartialEq, Eq, Structural)]
pub struct V3(pub i64, pub i64, pub i64);

impl View for V3 {
    type V = V3i;

    open spec fn view(&self) -> V3i {
        V3i { x: self.0 as int, y: self.1 as int, z: self.2 as int }
    }
}

impl V3 {
    pub fn plus(self, o: V3) -> (r: V3)
        requires
            bounded3(self@, 0x2000_0000_0000_0000),
            bounded3(o@, 0x2000_0000_0000_0000),
        ensures
            r@ == vadd(self@, o@),
    {
        V3(self.0 + o.0, self.1 + o.1, self.2 + o.2)
    }

    pub fn minus(self, o: V3) -> (r: V3)
        requires
            bounded3(self@, 0x2000_0000_0000_0000),
            bounded3(o@, 0x2000_0000_0000_0000),
        ensures
            r@ == vsub(self@, o@),
    {
        V3(self.0 - o.0, self.1 - o.1, self.2 - o.2)
    }

    pub fn neg(self) -> (r: V3)
        requires
            bounded3(self@, 0x2000_0000_0000_0000),
        ensures
            r@ == vneg(self@),
    {
        V3(-self.0, -self.1, -self.2)
    }

    pub fn scale(self, k: i64) -> (r: V3)
        requires
            bounded3(self@, B_VEC as int),
            -B_VEC <= k <= B_VEC,
        ensures
            r@ == vscale(self@, k as int),
    {
        proof {
            lemma_mul_le(self.0 as int, k as int, B_VEC as int, B_VEC as int);
            lemma_mul_le(self.1 as int, k as int, B_VEC as int, B_VEC as int);
            lemma_mul_le(self.2 as int, k as int, B_VEC as int, B_VEC as int);
        }
        V3(fx_mul(self.0, k), fx_mul(self.1, k), fx_mul(self.2, k))
    }

    pub fn elem_mul(self, o: V3) -> (r: V3)
        requires
            bounded3(self@, B_VEC as int),
            bounded3(o@, B_VEC as int),
        ensures
            r@ == velem_mul(self@, o@),
    {
        proof {
            lemma_mul_le(self.0 as int, o.0 as int, B_VEC as int, B_VEC as int);
            lemma_mul_le(self.1 as int, o.1 as int, B_VEC as int, B_VEC as int);
            lemma_mul_le(self.2 as int, o.2 as int, B_VEC as int, B_VEC as int);
        }
        V3(fx_mul(self.0, o.0), fx_mul(self.1, o.1), fx_mul(self.2, o.2))
    }

    pub fn scale_div(self, k: i64) -> (r: V3)
        requires
            bounded3(self@, 0x4000_0000_0000),
            k != 0,
        ensures
            r@ == vscale_div(self@, k as int),
    {
        V3(fx_div(self.0, k), fx_div(self.1, k), fx_div(self.2, k))
    }

    pub fn dot(self, o: V3) -> (r: i64)
        requires
            bounded3(self@, B_VEC as int),
            bounded3(o@, B_VEC as int),
        ensures
            r as int == dot_s(self@, o@),
            -0x3000_0000_0000_0000 <= r <= 0x3000_0000_0000_0000,
    {
        proof {
            lemma_mul_le(self.0 as int, o.0 as int, B_VEC as int, B_VEC as int);
            lemma_mul_le(self.1 as int, o.1 as int, B_VEC as int, B_VEC as int);
            lemma_mul_le(self.2 as int, o.2 as int, B_VEC as int, B_VEC as int);
            lemma_tdiv_le((self.0 as int) * (o.0 as int), FX_ONE as int, 0x1000_0000_0000_0000_0000);
            lemma_tdiv_le((self.1 as int) * (o.1 as int), FX_ONE as int, 0x1000_0000_0000_0000_0000);
            lemma_tdiv_le((self.2 as int) * (o.2 as int), FX_ONE as int, 0x1000_0000_0000_0000_0000);
        }
        let t1: i64 = fx_mul(self.0, o.0);
        let t2: i64 = fx_mul(self.1, o.1);
        let t3: i64 = fx_mul(self.2, o.2);
        t1 + t2 + t3
    }

    pub fn cross(self, o: V3) -> (r: V3)
        requires
            bounded3(self@, B_VEC as int),
            bounded3(o@, B_VEC as int),
        ensures
            r@ == cross_s(self@, o@),
    {
        proof {
            lemma_mul_le(self.1 as int, o.2 as int, B_VEC as int, B_VEC as int);
            lemma_mul_le(self.2 as int, o.1 as int, B_VEC as int, B_VEC as int);
            lemma_mul_le(self.2 as int, o.0 as int, B_VEC as int, B_VEC as int);
            lemma_mul_le(self.0 as int, o.2 as int, B_VEC as int, B_VEC as int);
            lemma_mul_le(self.0 as int, o.1 as int, B_VEC as int, B_VEC as int);
            lemma_mul_le(self.1 as int, o.0 as int, B_VEC as int, B_VEC as int);
            lemma_tdiv_le((self.1 as int) * (o.2 as int), FX_ONE as int, 0x1000_0000_0000_0000_0000);
            lemma_tdiv_le((self.2 as int) * (o.1 as int), FX_ONE as int, 0x1000_0000_0000_0000_0000);
            lemma_tdiv_le((self.2 as int) * (o.0 as int), FX_ONE as int, 0x1000_0000_0000_0000_0000);
            lemma_tdiv_le((self.0 as int) * (o.2 as int), FX_ONE as int, 0x1000_0000_0000_0000_0000);
            lemma_tdiv_le((self.0 as int) * (o.1 as int), FX_ONE as int, 0x1000_0000_0000_0000_0000);
            lemma_tdiv_le((self.1 as int) * (o.0 as int), FX_ONE as int, 0x1000_0000_0000_0000_0000);
        }
        V3(
            fx_mul(self.1, o.2) - fx_mul(self.2, o.1),
            fx_mul(self.2, o.0) - fx_mul(self.0, o.2),
            fx_mul(self.0, o.1) - fx_mul(self.1, o.0),
        )
    }

    pub fn sq_len(self) -> (r: i64)
        requires
            bounded3(self@, B_VEC as int),
        ensures
            r as int == sq_len_s(self@),
            r >= 0,
    {
        proof {
            lemma_sq_len_nonneg(self@);
        }
        self.dot(self)
    }

    pub fn len(self) -> (r: i64)
        requires
            bounded3(self@, B_VEC as int),
        ensures
            r as int == len_s(self@),
            0 <= r <= 0x100_0000_0000,
    {
        let sl: i64 = self.sq_len();
        fx_sqrt(sl)
    }

    pub fn near_zero(self) -> (r: bool)
        requires
            bounded3(self@, B_VEC as int),
        ensures
            r == near_zero_s(self@),
    {
        self.sq_len() == 0
    }

    pub fn norm(self) -> (r: V3)
        requires
            bounded3(self@, B_VEC as int),
            sq_len_s(self@) >= 1,
        ensures
            r@ == norm_s(self@),
            bounded3(r@, 3 * FX_ONE as int),
            sq_len_s(r@) >= 1,
            sq_len_s(self@) >= FX_ONE ==> bounded3(r@, FX_ONE as int + 4),
            sq_len_s(self@) >= FX_ONE ==> FX_ONE - 10 <= sq_len_s(r@) <= FX_ONE + 8,
    {
        let sl: i64 = self.sq_len();
        let l: i64 = fx_sqrt(sl);
        proof {
            lemma_sq_len_nonneg(self@);
            lemma_tdiv_mul_bound((self.0 as int) * (self.0 as int), FX_ONE as int);
            lemma_tdiv_mul_bound((self.1 as int) * (self.1 as int), FX_ONE as int);
            lemma_tdiv_mul_bound((self.2 as int) * (self.2 as int), FX_ONE as int);
            assert(65536 * fx_mul_s(self@.x, self@.x) <= 65536 * sq_len_s(self@))
                by (nonlinear_arith)
                requires
                    fx_mul_s(self@.x, self@.x) <= sq_len_s(self@),
            ;
            assert(65536 * fx_mul_s(self@.y, self@.y) <= 65536 * sq_len_s(self@))
                by (nonlinear_arith)
                requires
                    fx_mul_s(self@.y, self@.y) <= sq_len_s(self@),
            ;
            assert(65536 * fx_mul_s(self@.z, self@.z) <= 65536 * sq_len_s(self@))
                by (nonlinear_arith)
                requires
                    fx_mul_s(self@.z, self@.z) <= sq_len_s(self@),
            ;
            lemma_unit_div_bound(self.0 as int, sl as int, l as int);
            lemma_unit_div_bound(self.1 as int, sl as int, l as int);
            lemma_unit_div_bound(self.2 as int, sl as int, l as int);
            let t1 = fx_mul_s(self@.x, self@.x);
            let t2 = fx_mul_s(self@.y, self@.y);
            let t3 = fx_mul_s(self@.z, self@.z);
            let out = norm_s(self@);
            lemma_sq_len_nonneg(out);
            if t1 >= t2 && t1 >= t3 {
                lemma_norm_comp_low(self@.x, sl as int, l as int);
            } else if t2 >= t3 {
                lemma_norm_comp_low(self@.y, sl as int, l as int);
            } else {
                lemma_norm_comp_low(self@.z, sl as int, l as int);
            }
            if sl >= FX_ONE {
                lemma_unit_div_tight(self@.x, sl as int, l as int);
                lemma_unit_div_tight(self@.y, sl as int, l as int);
                lemma_unit_div_tight(self@.z, sl as int, l as int);
                lemma_norm_sq_len_tight(self@, sl as int, l as int);
            }
        }
        V3(fx_div(self.0, l), fx_div(self.1, l), fx_div(self.2, l))
    }

    pub fn reflect(self, normal: V3) -> (r: V3)
        requires
            bounded3(self@, 0x3_0000),
            bounded3(normal@, 0x3_0000),
        ensures
            r@ == reflect_s(self@, normal@),
            bounded3(r@, 0x100_0000),
    {
        let d: i64 = self.dot(normal);
        proof {
            lemma_dot_cap(self@, normal@, 0x3_0000, 0x3_0000);
            lemma_scale_cap(normal@, d as int, 0x3_0000, 0x1B_0000);
            lemma_scale_cap(vscale(normal@, d as int), 2 * FX_ONE as int, 0x51_0000, 0x2_0000);
        }
        let t: V3 = normal.scale(d);
        let t2: V3 = t.scale(2 * FX_ONE);
        self.minus(t2)
    }

    pub fn refract(self, normal: V3, etai: i64) -> (r: V3)
        requires
            bounded3(self@, 0x3_0000),
            bounded3(normal@, 0x3_0000),
            0 <= etai <= 0x40_0000,
        ensures
            r@ == refract_s(self@, normal@, etai as int),
            bounded3(r@, 0x2000_0000),
    {
        let cos: i64 = -self.dot(normal);
        proof {
            lemma_dot_cap(self@, normal@, 0x3_0000, 0x3_0000);
            lemma_scale_cap(normal@, cos as int, 0x3_0000, 0x1B_0000);
            lemma_scale_cap(
                vadd(self@, vscale(normal@, cos as int)),
                etai as int,
                0x54_0000,
                0x40_0000,
            );
        }
        let prep: V3 = self.plus(normal.scale(cos)).scale(etai);
        let sq: i64 = prep.sq_len();
        let rest: i64 = FX_ONE - sq;
        let arg: i64 = if rest < 0 {
            0
        } else {
            rest
        };
        let root: i64 = fx_sqrt(arg);
        proof {
            assert(root * root <= arg * 65536);
            assert(root <= 65536) by (nonlinear_arith)
                requires
                    root * root <= arg * 65536,
                    0 <= arg <= 65536,
                    0 <= root,
            ;
            lemma_scale_cap(vneg(normal@), root as int, 0x3_0000, 0x1_0000);
        }
        let para: V3 = normal.neg().scale(root);
        prep.plus(para)
    }
}

/// A dot product of vectors capped at `aa` and `bb` is capped at three
/// rescaled magnitude products.
pub proof fn lemma_dot_cap(a: V3i, b: V3i, aa: int, bb: int)
    requires
        bounded3(a, aa),
        bounded3(b, bb),
        0 <= aa,
        0 <= bb,
        aa * bb <= 0x2000_0000_0000_0000_0000,
    ensures
        -(3 * ((aa * bb) / 65536)) <= dot_s(a, b) <= 3 * ((aa * bb) / 65536),
{
    lemma_mul_le(a.x, b.x, aa, bb);
    lemma_mul_le(a.y, b.y, aa, bb);
    lemma_mul_le(a.z, b.z, aa, bb);
    lemma_tdiv_le(a.x * b.x, FX_ONE as int, aa * bb);
    lemma_tdiv_le(a.y * b.y, FX_ONE as int, aa * bb);
    lemma_tdiv_le(a.z * b.z, FX_ONE as int, aa * bb);
}

/// A componentwise scaling of a capped vector by a capped scalar stays
/// within the rescaled magnitude product.
pub proof fn lemma_scale_cap(a: V3i, k: int, aa: int, kk: int)
    requires
        bounded3(a, aa),
        -kk <= k <= kk,
        0 <= aa,
        0 <= kk,
        aa * kk <= 0x2000_0000_0000_0000_0000,
    ensures
        bounded3(vscale(a, k), (aa * kk) / 65536),
{
    lemma_mul_le(a.x, k, aa, kk);
    lemma_mul_le(a.y, k, aa, kk);
    lemma_mul_le(a.z, k, aa, kk);
    lemma_tdiv_le(a.x * k, FX_ONE as int, aa * kk);
    lemma_tdiv_le(a.y * k, FX_ONE as int, aa * kk);
    lemma_tdiv_le(a.z * k, FX_ONE as int, aa * kk);
}

/// Reflection about a flat (axis-aligned, unit) normal is exact even at
/// this scale: it flips the normal component and keeps the others, so it
/// preserves the squared length of every direction, and applied twice it
/// returns the direction unchanged.
pub proof fn lemma_reflect_flat(d: V3i)
    ensures
        reflect_s(d, V3i { x: 0, y: 65536, z: 0 }) == (V3i { x: d.x, y: -d.y, z: d.z }),
        sq_len_s(reflect_s(d, V3i { x: 0, y: 65536, z: 0 })) == sq_len_s(d),
        reflect_s(reflect_s(d, V3i { x: 0, y: 65536, z: 0 }), V3i { x: 0, y: 65536, z: 0 }) == d,
{
    let n = V3i { x: 0, y: 65536, z: 0 };
    lemma_reflect_flat_once(d);
    lemma_reflect_flat_once(V3i { x: d.x, y: -d.y, z: d.z });
    crate::fixed::lemma_fx_mul_neg(d.y, d.y);
    crate::fixed::lemma_fx_mul_neg(d.y, -d.y);
}

/// One application of the flat-normal reflection, computed exactly.
proof fn lemma_reflect_flat_once(d: V3i)
    ensures
        reflect_s(d, V3i { x: 0, y: 65536, z: 0 }) == (V3i { x: d.x, y: -d.y, z: d.z }),
{
    let n = V3i { x: 0, y: 65536, z: 0 };
    assert(d.x * 0 == 0) by (nonlinear_arith);
    assert(d.z * 0 == 0) by (nonlinear_arith);
    lemma_tdiv_exact(d.y, 65536);
    assert(d.y * 65536 == 65536 * d.y) by (nonlinear_arith);
    assert(dot_s(d, n) == d.y);
    assert(0 * d.y == 0) by (nonlinear_arith);
    assert(vscale(n, d.y) == (V3i { x: 0, y: d.y, z: 0 }));
    lemma_tdiv_exact(2 * d.y, 65536);
    assert(d.y * 131072 == (2 * d.y) * 65536) by (nonlinear_arith);
    assert(0 * 131072 == 0) by (nonlinear_arith);
    assert(vscale(V3i { x: 0, y: d.y, z: 0 }, 2 * FX_ONE as int) == (V3i {
        x: 0,
        y: 2 * d.y,
        z: 0,
    }));
}

/// A cross product of capped vectors is capped by twice the rescaled
/// magnitude product.
pub proof fn lemma_cross_cap(a: V3i, b: V3i, aa: int, bb: int)
    requires
        bounded3(a, aa),
        bounded3(b, bb),
        0 <= aa,
        0 <= bb,
        aa * bb <= 0x2000_0000_0000_0000_0000,
    ensures
        bounded3(cross_s(a, b), 2 * ((aa * bb) / 65536)),
{
    lemma_mul_le(a.y, b.z, aa, bb);
    lemma_mul_le(a.z, b.y, aa, bb);
    lemma_mul_le(a.z, b.x, aa, bb);
    lemma_mul_le(a.x, b.z, aa, bb);
    lemma_mul_le(a.x, b.y, aa, bb);
    lemma_mul_le(a.y, b.x, aa, bb);
    lemma_tdiv_le(a.y * b.z, FX_ONE as int, aa * bb);
    lemma_tdiv_le(a.z * b.y, FX_ONE as int, aa * bb);
    lemma_tdiv_le(a.z * b.x, FX_ONE as int, aa * bb);
    lemma_tdiv_le(a.x * b.z, FX_ONE as int, aa * bb);
    lemma_tdiv_le(a.x * b.y, FX_ONE as int, aa * bb);
    lemma_tdiv_le(a.y * b.x, FX_ONE as int, aa * bb);
}

/// The dot product is odd in each argument.
pub proof fn lemma_dot_neg(a: V3i, b: V3i)
    ensures
        dot_s(vneg(a), b) == -dot_s(a, b),
        dot_s(a, vneg(b)) == -dot_s(a, b),
{
    crate::fixed::lemma_fx_mul_neg(a.x, b.x);
    crate::fixed::lemma_fx_mul_neg(a.y, b.y);
    crate::fixed::lemma_fx_mul_neg(a.z, b.z);
}

/// Negating a vector keeps its squared length.
pub proof fn lemma_sq_len_neg(v: V3i)
    ensures
        sq_len_s(vneg(v)) == sq_len_s(v),
{
    lemma_dot_neg(v, vneg(v));
    lemma_dot_neg(v, v);
}

/// Deterministic pseudo-random generator, passed explicitly into every
/// sampling call so that a render is reproducible from its seed.
#[derive(Debug, Clone, Copy, PartialEq, Eq, Structural)]
pub struct Rng {
    pub state: u64,
}

pub open spec fn rng_next_state(s: u64) -> u64 {
    let a = s ^ (s >> 12);
    let b = a ^ (a << 25);
    b ^ (b >> 27)
}

pub open spec fn rng_out(s: u64) -> u64 {
    rng_next_state(s).wrapping_mul(0x2545_F491_4F6C_DD1D)
}

/// The uniform fixed-point sample in `[0, 1)` that one generator step yields.
pub open spec fn rand_bits_s(s: u64) -> int {
    (rng_out(s) % 65536) as int
}

pub open spec fn rand_in_s(min: int, max: int, s: u64) -> int {
    min + tdiv((max - min) * rand_bits_s(s), FX_ONE as int)
}

pub open spec fn rand2_state(s: u64) -> u64 {
    rng_next_state(rng_next_state(s))
}

impl Rng {
    pub fn new(seed: u64) -> (r: Rng)
        ensures
            r.state == seed ^ 0x9E37_79B9_7F4A_7C15u64,
    {
        Rng { state: seed ^ 0x9E37_79B9_7F4A_7C15 }
    }

    pub fn next_u64(&mut self) -> (r: u64)
        ensures
            final(self).state == rng_next_state(old(self).state),
            r == rng_out(old(self).state),
    {
        let mut s: u64 = self.state;
        s = s ^ (s >> 12);
        s = s ^ (s << 25);
        s = s ^ (s >> 27);
        self.state = s;
        s.wrapping_mul(0x2545_F491_4F6C_DD1D)
    }
}

/// A uniform fixed-point sample in `[0, 1)`.
pub fn rand(rng: &mut Rng) -> (r: i64)
    ensures
        final(rng).state == rng_next_state(old(rng).state),
        r as int == rand_bits_s(old(rng).state),
        0 <= r < FX_ONE,
{
    let u: u64 = rng.next_u64();
    (u % 65536) as i64
}

/// A uniform fixed-point sample in `[min, max)` (or `min` itself when the
/// interval is empty).
pub fn rand_in(min: i64, max: i64, rng: &mut Rng) -> (r: i64)
    requires
        -0x4000_0000_0000 <= min <= max <= 0x4000_0000_0000,
    ensures
        final(rng).state == rng_next_state(old(rng).state),
        r as int == rand_in_s(min as int, max as int, old(rng).state),
        min <= r,
        min < max ==> r < max,
        min == max ==> r == min,
{
    let u: i64 = rand(rng);
    let span: i64 = max - min;
    proof {
        lemma_mul_le(span as int, u as int, 0x8000_0000_0000, 0x1_0000);
        assert((span as int) * (u as int) >= 0) by (nonlinear_arith)
            requires
                span >= 0,
                u >= 0,
        ;
    }
    let p: i128 = (span as i128) * (u as i128);
    let q: i128 = p / 65536;
    proof {
        lemma_tdiv_mul_bound(p as int, 65536);
        assert(p as int <= (span as int) * 65535) by (nonlinear_arith)
            requires
                p as int == (span as int) * (u as int),
                0 <= u <= 65535,
                span >= 0,
        ;
        assert(span >= 1 ==> q < span) by (nonlinear_arith)
            requires
                q as int == tdiv(p as int, 65536),
                65536 * tdiv(p as int, 65536) <= p as int,
                0 <= tdiv(p as int, 65536),
                p as int <= (span as int) * 65535,
                span >= 0,
        ;
    }
    min + (q as i64)
}

/// A point on the unit sphere, drawn by a uniform cosine of the polar angle
/// and a uniform azimuth.
pub open spec fn rand_v3_s(s: u64) -> V3i {
    let ct = rand_in_s(-(FX_ONE as int), FX_ONE as int, s);
    let phi = rand_in_s(0, TAU as int, rng_next_state(s));
    let st = fx_sqrt_s(FX_ONE as int - fx_mul_s(ct, ct));
    V3i { x: fx_mul_s(st, cos_s(phi)), y: fx_mul_s(st, sin_s(phi)), z: ct }
}

pub fn rand_v3(rng: &mut Rng) -> (r: V3)
    ensures
        final(rng).state == rand2_state(old(rng).state),
        r@ == rand_v3_s(old(rng).state),
        bounded3(r@, FX_ONE as int),
{
    let ct: i64 = rand_in(-FX_ONE, FX_ONE, rng);
    let phi: i64 = rand_in(0, TAU, rng);
    proof {
        lemma_mul_le(ct as int, ct as int, 0x1_0000, 0x1_0000);
        assert((ct as int) * (ct as int) >= 0) by (nonlinear_arith);
        lemma_tdiv_mul_bound((ct as int) * (ct as int), FX_ONE as int);
        lemma_tdiv_le((ct as int) * (ct as int), FX_ONE as int, 0x1_0000_0000);
    }
    let csq: i64 = fx_mul(ct, ct);
    let st: i64 = fx_sqrt(FX_ONE - csq);
    proof {
        assert(st <= 65536) by (nonlinear_arith)
            requires
                (st as int) * (st as int) <= (65536 - csq as int) * 65536,
                0 <= csq <= 65536,
                0 <= st,
        ;
    }
    let c: i64 = cos_fx(phi);
    let s2: i64 = sin_fx(phi);
    proof {
        lemma_mul_le(st as int, c as int, 0x1_0000, 0x1_0000);
        lemma_mul_le(st as int, s2 as int, 0x1_0000, 0x1_0000);
        lemma_tdiv_le((st as int) * (c as int), FX_ONE as int, 0x1_0000_0000);
        lemma_tdiv_le((st as int) * (s2 as int), FX_ONE as int, 0x1_0000_0000);
    }
    V3(fx_mul(st, c), fx_mul(st, s2), ct)
}

/// A unit-sphere sample folded into the hemisphere around `n`.
pub open spec fn rand_hemisphere_s(n: V3i, s: u64) -> V3i {
    let v = rand_v3_s(s);
    if dot_s(n, v) > 0 {
        v
    } else {
        vneg(v)
    }
}

pub fn rand_hemisphere(normal: V3, rng: &mut Rng) -> (r: V3)
    requires
        bounded3(normal@, B_VEC as int),
    ensures
        final(rng).state == rand2_state(old(rng).state),
        r@ == rand_hemisphere_s(normal@, old(rng).state),
        bounded3(r@, FX_ONE as int),
{
    let v: V3 = rand_v3(rng);
    let d: i64 = normal.dot(v);
    if d > 0 {
        v
    } else {
        v.neg()
    }
}

/// A point in the unit disk, drawn without rejection: radius from a square
/// root, angle uniform over the full turn.
pub open spec fn rand_disk_s(s: u64) -> V3i {
    let r0 = fx_sqrt_s(rand_bits_s(s));
    let th = fx_mul_s(rand_bits_s(rng_next_state(s)), TAU as int);
    V3i { x: fx_mul_s(r0, cos_s(th)), y: fx_mul_s(r0, sin_s(th)), z: 0 }
}

pub fn rand_disk(rng: &mut Rng) -> (r: V3)
    ensures
        final(rng).state == rand2_state(old(rng).state),
        r@ == rand_disk_s(old(rng).state),
        bounded3(r@, FX_ONE as int),
{
    let u1: i64 = rand(rng);
    let u2: i64 = rand(rng);
    let r0: i64 = fx_sqrt(u1);
    proof {
        assert(r0 <= 65536) by (nonlinear_arith)
            requires
                (r0 as int) * (r0 as int) <= (u1 as int) * 65536,
                0 <= u1 < 65536,
                0 <= r0,
        ;
        lemma_mul_le(u2 as int, TAU as int, 65535, 411774);
        assert((u2 as int) * (TAU as int) >= 0) by (nonlinear_arith)
            requires
                u2 >= 0,
        ;
        lemma_tdiv_mul_bound((u2 as int) * (TAU as int), FX_ONE as int);
        lemma_tdiv_le((u2 as int) * (TAU as int), FX_ONE as int, 65535int * 411774);
    }
    let th: i64 = fx_mul(u2, TAU);
    let c: i64 = cos_fx(th);
    let s2: i64 = sin_fx(th);
    proof {
        lemma_mul_le(r0 as int, c as int, 0x1_0000, 0x1_0000);
        lemma_mul_le(r0 as int, s2 as int, 0x1_0000, 0x1_0000);
        lemma_tdiv_le((r0 as int) * (c as int), FX_ONE as int, 0x1_0000_0000);
        lemma_tdiv_le((r0 as int) * (s2 as int), FX_ONE as int, 0x1_0000_0000);
    }
    V3(fx_mul(r0, c), fx_mul(r0, s2), 0)
}

} // verus!
