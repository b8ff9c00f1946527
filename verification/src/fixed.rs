use vstd::prelude::*;

verus! {

/// Scalars are fixed-point numbers: an `i64` holding the real value scaled by
/// `FX_ONE`. All arithmetic on them truncates toward zero, and every
/// executable operation here carries an exact contract over `tdiv`.
pub const FX_ONE: i64 = 65536;

pub const FX_HALF: i64 = 32768;

/// Truncating (toward zero) division, the rounding that the executable
/// fixed-point operations use. `b` is expected positive.
pub open spec fn tdiv(a: int, b: int) -> int
    recommends
        b > 0,
{
    if a >= 0 {
        a / b
    } else {
        -((-a) / b)
    }
}

/// Fixed-point product: the scaled product, truncated toward zero.
pub open spec fn fx_mul_s(a: int, b: int) -> int {
    tdiv(a * b, FX_ONE as int)
}

/// Fixed-point quotient for any nonzero divisor, truncated toward zero.
pub open spec fn fx_div_s(a: int, b: int) -> int
    recommends
        b != 0,
{
    if b > 0 {
        tdiv(a * (FX_ONE as int), b)
    } else {
        -tdiv(a * (FX_ONE as int), -b)
    }
}

pub open spec fn is_isqrt(n: int, r: int) -> bool {
    0 <= r && r * r <= n && n < (r + 1) * (r + 1)
}

/// The integer square root: the unique `r >= 0` with `r * r <= n < (r+1) * (r+1)`.
pub open spec fn isqrt_s(n: int) -> int
    recommends
        n >= 0,
{
    choose|r: int| is_isqrt(n, r)
}

/// Fixed-point square root: `isqrt` of the operand brought to double scale.
pub open spec fn fx_sqrt_s(a: int) -> int
    recommends
        a >= 0,
{
    isqrt_s(a * (FX_ONE as int))
}

pub proof fn lemma_isqrt_unique(n: int, r: int)
    requires
        is_isqrt(n, r),
    ensures
        isqrt_s(n) == r,
{
    assert(is_isqrt(n, isqrt_s(n)));
    let q = isqrt_s(n);
    assert(q == r) by (nonlinear_arith)
        requires
            is_isqrt(n, q),
            is_isqrt(n, r),
    ;
}

/// The magnitude of a product is bounded by the product of the magnitudes.
pub proof fn lemma_mul_le(a: int, b: int, aa: int, bb: int)
    by (nonlinear_arith)
    requires
        -aa <= a <= aa,
        -bb <= b <= bb,
        0 <= aa,
        0 <= bb,
    ensures
        -(aa * bb) <= a * b <= aa * bb,
{
}

/// Truncating division shrinks magnitudes: a bound on the dividend bounds the quotient.
pub proof fn lemma_tdiv_le(a: int, b: int, c: int)
    by (nonlinear_arith)
    requires
        b > 0,
        -c <= a <= c,
        0 <= c,
    ensures
        -c <= tdiv(a, b) <= c,
        -(c / b) <= tdiv(a, b) <= c / b,
{
}

/// What truncating division leaves behind: the quotient times the divisor
/// falls short of a nonnegative dividend by less than the divisor.
pub proof fn lemma_tdiv_mul_bound(a: int, b: int)
    by (nonlinear_arith)
    requires
        a >= 0,
        b > 0,
    ensures
        0 <= tdiv(a, b),
        b * tdiv(a, b) <= a,
        a < b * tdiv(a, b) + b,
{
}

/// Scaling the quotient back comes within one divisor of the dividend, on
/// either side and for either sign.
pub proof fn lemma_tdiv_low(a: int, b: int)
    requires
        b >= 1,
    ensures
        b * tdiv(a, b) - b < a < b * tdiv(a, b) + b,
{
    if a >= 0 {
        lemma_tdiv_mul_bound(a, b);
    } else {
        lemma_tdiv_mul_bound(-a, b);
        lemma_tdiv_neg(-a, b);
        assert(b * tdiv(a, b) == -(b * tdiv(-a, b))) by (nonlinear_arith)
            requires
                tdiv(a, b) == -tdiv(-a, b),
        ;
    }
}

/// Every nonnegative integer has an integer square root.
pub proof fn lemma_isqrt_exists(n: int)
    requires
        0 <= n,
    ensures
        is_isqrt(n, isqrt_s(n)),
    decreases n,
{
    if n == 0 {
        assert(is_isqrt(0, 0)) by (nonlinear_arith);
    } else {
        lemma_isqrt_exists(n - 1);
        let r = isqrt_s(n - 1);
        if (r + 1) * (r + 1) <= n {
            assert(is_isqrt(n, r + 1)) by (nonlinear_arith)
                requires
                    is_isqrt(n - 1, r),
                    (r + 1) * (r + 1) <= n,
            ;
        } else {
            assert(is_isqrt(n, r));
        }
    }
    assert(is_isqrt(n, isqrt_s(n)));
}

/// The quotient scaled back by the divisor never exceeds the dividend in
/// square.
pub proof fn lemma_tdiv_sq_le(a: int, b: int)
    requires
        b >= 1,
    ensures
        (b * b) * (tdiv(a, b) * tdiv(a, b)) <= a * a,
{
    let q = tdiv(a, b);
    if a >= 0 {
        lemma_tdiv_mul_bound(a, b);
        assert((b * b) * (q * q) <= a * a) by (nonlinear_arith)
            requires
                0 <= b * q <= a,
        ;
    } else {
        lemma_tdiv_mul_bound(-a, b);
        lemma_tdiv_neg(-a, b);
        assert((b * b) * (q * q) <= a * a) by (nonlinear_arith)
            requires
                q == -tdiv(-a, b),
                0 <= b * tdiv(-a, b) <= -a,
        ;
    }
}

/// The quotient scaled back by the divisor falls short of the dividend in
/// square by at most two magnitudes of the dividend plus one divisor square.
pub proof fn lemma_tdiv_sq_ge(a: int, b: int, m: int)
    requires
        b >= 1,
        m == a || m == -a,
        m >= 0,
    ensures
        a * a < (b * b) * (tdiv(a, b) * tdiv(a, b)) + 2 * b * m + b * b,
{
    let q = tdiv(a, b);
    lemma_tdiv_mul_bound(m, b);
    lemma_tdiv_neg(m, b);
    assert(q * q == tdiv(m, b) * tdiv(m, b)) by (nonlinear_arith)
        requires
            q == tdiv(m, b) || q == -tdiv(m, b),
    ;
    assert(m * m < (b * b) * (tdiv(m, b) * tdiv(m, b)) + 2 * b * m + b * b) by (nonlinear_arith)
        requires
            m < b * tdiv(m, b) + b,
            b * tdiv(m, b) <= m,
            0 <= tdiv(m, b),
            b >= 1,
            m >= 0,
    ;
    assert(a * a == m * m) by (nonlinear_arith)
        requires
            m == a || m == -a,
    ;
}

/// Division is exact on multiples of the divisor.
pub proof fn lemma_tdiv_exact(k: int, b: int)
    by (nonlinear_arith)
    requires
        b > 0,
    ensures
        tdiv(k * b, b) == k,
{
}

/// Truncation toward zero commutes with negation.
pub proof fn lemma_tdiv_neg(a: int, b: int)
    requires
        b > 0,
    ensures
        tdiv(-a, b) == -tdiv(a, b),
{
}

pub proof fn lemma_fx_mul_neg(a: int, b: int)
    ensures
        fx_mul_s(-a, b) == -fx_mul_s(a, b),
        fx_mul_s(a, -b) == -fx_mul_s(a, b),
{
    assert((-a) * b == -(a * b)) by (nonlinear_arith);
    assert(a * (-b) == -(a * b)) by (nonlinear_arith);
    lemma_tdiv_neg(a * b, FX_ONE as int);
}

pub fn fx_mul(a: i64, b: i64) -> (r: i64)
    requires
        -0x4000_0000_0000_0000_0000 <= (a as int) * (b as int) <= 0x4000_0000_0000_0000_0000,
    ensures
        r as int == fx_mul_s(a as int, b as int),
{
    proof {
        lemma_mul_le(a as int, b as int, 0x8000_0000_0000_0000, 0x8000_0000_0000_0000);
    }
    let p: i128 = (a as i128) * (b as i128);
    let q: i128 = p / 65536;
    proof {
        lemma_tdiv_le(p as int, FX_ONE as int, 0x4000_0000_0000_0000_0000);
    }
    q as i64
}

pub fn fx_div(a: i64, b: i64) -> (r: i64)
    requires
        b != 0,
        -0x4000_0000_0000 <= a <= 0x4000_0000_0000,
    ensures
        r as int == fx_div_s(a as int, b as int),
{
    let p: i128 = (a as i128) * 65536;
    let q: i128 = if b > 0 {
        let d: i128 = p / (b as i128);
        proof {
            lemma_tdiv_le(p as int, b as int, 0x4000_0000_0000_0000);
        }
        d
    } else {
        let d: i128 = -(p / (-(b as i128)));
        proof {
            lemma_tdiv_le(p as int, -(b as int), 0x4000_0000_0000_0000);
        }
        d
    };
    q as i64
}

/// Fixed-point quotient for a dividend bounded by a multiple of the divisor,
/// as in a weighted average; the result is bounded by that multiple at scale.
pub fn fx_div_r(a: i64, b: i64) -> (r: i64)
    requires
        b >= 1,
        -0x2000_0000 * (b as int) <= a as int <= 0x2000_0000 * (b as int),
    ensures
        r as int == fx_div_s(a as int, b as int),
        -0x2000_0000_0000 <= r <= 0x2000_0000_0000,
{
    proof {
        lemma_mul_le(a as int, FX_ONE as int, 0x8000_0000_0000_0000, 0x1_0000);
        lemma_tdiv_le((a as int) * (FX_ONE as int), b as int, 0x2000_0000 * (b as int) * 65536);
        assert(0x2000_0000 * (b as int) * 65536 == 0x2000_0000_0000 * (b as int))
            by (nonlinear_arith);
        lemma_tdiv_exact(0x2000_0000_0000, b as int);
        assert((0x2000_0000 * (b as int)) * 65536 >= (a as int) * 65536
            >= -((0x2000_0000 * (b as int)) * 65536)) by (nonlinear_arith)
            requires
                -0x2000_0000 * (b as int) <= a as int <= 0x2000_0000 * (b as int),
        ;
    }
    let p: i128 = (a as i128) * 65536;
    let q: i128 = p / (b as i128);
    q as i64
}

/// Plain truncating division of fixed-point by an integer count.
pub fn idiv(a: i64, b: i64) -> (r: i64)
    requires
        b >= 1,
        a > i64::MIN,
    ensures
        r as int == tdiv(a as int, b as int),
{
    a / b
}

pub fn fx_sqrt(a: i64) -> (r: i64)
    requires
        0 <= a,
    ensures
        r as int == fx_sqrt_s(a as int),
        is_isqrt(a * (FX_ONE as int), r as int),
        0 <= r <= 0x100_0000_0000,
{
    let n: u128 = (a as u128) * 65536;
    let mut lo: u128 = 0;
    let mut hi: u128 = 0x100_0000_0000;
    proof {
        assert((0x100_0000_0000u128 + 1) * (0x100_0000_0000u128 + 1) > n) by (nonlinear_arith)
            requires
                n <= 0x8000_0000_0000_0000u128 * 65536,
        ;
    }
    while lo < hi
        invariant
            0 <= lo <= hi <= 0x100_0000_0000,
            lo * lo <= n,
            n < (hi + 1) * (hi + 1),
            n == (a as u128) * 65536,
        decreases hi - lo,
    {
        let mid: u128 = lo + (hi - lo + 1) / 2;
        proof {
            assert(lo < mid <= hi);
            assert(mid * mid <= 0x100_0000_0000u128 * 0x100_0000_0000u128) by (nonlinear_arith)
                requires
                    0 < mid <= 0x100_0000_0000u128,
            ;
        }
        let sq: u128 = mid * mid;
        if sq <= n {
            lo = mid;
        } else {
            hi = mid - 1;
        }
    }
    proof {
        assert(is_isqrt(n as int, lo as int));
        lemma_isqrt_unique(n as int, lo as int);
        assert(n as int == (a as int) * (FX_ONE as int));
    }
    lo as i64
}

/// Clamp into an interval; used to bring accumulated color back into range
/// before tone mapping.
pub fn clamp_fx(a: i64, lo: i64, hi: i64) -> (r: i64)
    requires
        lo <= hi,
    ensures
        r == clamp_s(a as int, lo as int, hi as int),
{
    if a < lo {
        lo
    } else if a > hi {
        hi
    } else {
        a
    }
}

pub open spec fn clamp_s(a: int, lo: int, hi: int) -> int {
    if a < lo {
        lo
    } else if a > hi {
        hi
    } else {
        a
    }
}

} // verus!
