//! Fixed-point arithmetic core.
//!
//! Every real-valued quantity in this crate is represented as an `i64` holding
//! the value times [`SCALE`] (four decimal places). All engine arithmetic is
//! integer arithmetic with truncating division, so results are deterministic
//! and reproducible bit for bit.

use vstd::prelude::*;

verus! {

/// Number of fixed-point units per whole unit: values carry four decimals.
pub const SCALE: i64 = 10000;

/// Largest magnitude (in fixed-point units) accepted for a data value:
/// one thousand whole units, far above the 1..=10 grade range this engine
/// serves, while leaving room to square and cube deviations in `i128`.
pub const VAL_BOUND: i64 = 10_000_000;

/// Largest sequence length the engine accepts (the spec targets tens to low
/// thousands of points; this bound keeps all accumulators inside `i128`).
pub const LEN_BOUND: usize = 10_000;

/// Largest timestamp magnitude accepted (millisecond epochs far past 2200).
pub const TS_BOUND: i64 = 10_000_000_000_000;

/// Saturation bound for derived quantities (slopes, fitted values) that are
/// returned as `i64`: anything beyond it is pinned to the bound.
pub const SAT_BOUND: i64 = 1_000_000_000_000_000;

/// A data value is within the engine's fixed-point domain.
pub open spec fn fx_ok(v: int) -> bool {
    -VAL_BOUND <= v <= VAL_BOUND
}

/// The sequence is an acceptable engine input: bounded length and every
/// element within the fixed-point domain.
pub open spec fn vals_ok(s: Seq<i64>) -> bool {
    s.len() <= LEN_BOUND && (forall|i: int| 0 <= i < s.len() ==> #[trigger] fx_ok(s[i] as int))
}

/// Truncated (round-toward-zero) division, the semantics of every division
/// the engine performs. Callers only apply it with `b > 0`.
pub open spec fn tdiv(a: int, b: int) -> int {
    if a >= 0 {
        a / b
    } else {
        -((-a) / b)
    }
}

/// Clamp `x` into `[lo, hi]`.
pub open spec fn tclamp(x: int, lo: int, hi: int) -> int {
    if x < lo {
        lo
    } else if x > hi {
        hi
    } else {
        x
    }
}

/// `r` is the floor of the square root of `x`.
pub open spec fn is_sqrt(x: int, r: int) -> bool {
    0 <= r && r * r <= x && x < (r + 1) * (r + 1)
}

/// The floor of the square root of `x` (for `x >= 0`).
pub open spec fn sqrt_floor(x: int) -> int {
    choose|r: int| is_sqrt(x, r)
}

/// An integer square root exists for every nonnegative integer.
pub proof fn lemma_sqrt_exists(x: int)
    requires
        x >= 0,
    ensures
        is_sqrt(x, sqrt_floor(x)),
    decreases x,
{
    if x == 0 {
        assert(is_sqrt(0, 0));
    } else {
        lemma_sqrt_exists(x - 1);
        let r = sqrt_floor(x - 1);
        if x < (r + 1) * (r + 1) {
            assert(is_sqrt(x, r));
        } else {
            assert(x == (r + 1) * (r + 1));
            assert((r + 2) * (r + 2) > x) by (nonlinear_arith)
                requires x == (r + 1) * (r + 1) && r >= 0,
            ;
            assert(is_sqrt(x, r + 1));
        }
    }
}

/// The integer square root is unique.
pub proof fn lemma_sqrt_unique(x: int, a: int, b: int)
    requires
        is_sqrt(x, a),
        is_sqrt(x, b),
    ensures
        a == b,
{
    assert(a == b) by (nonlinear_arith)
        requires
            0 <= a && a * a <= x && x < (a + 1) * (a + 1),
            0 <= b && b * b <= x && x < (b + 1) * (b + 1),
    ;
}

/// Truncated division of a nonnegative dividend is the Euclidean quotient.
pub proof fn lemma_tdiv_nonneg(a: int, b: int)
    requires
        a >= 0,
        b > 0,
    ensures
        tdiv(a, b) == a / b,
        0 <= tdiv(a, b) <= a,
{
    assert(0 <= a / b <= a) by (nonlinear_arith)
        requires a >= 0 && b > 0,
    ;
}

/// Truncated division never grows the magnitude of the dividend.
pub proof fn lemma_tdiv_abs(a: int, b: int)
    requires
        b > 0,
    ensures
        -(if a >= 0 { a } else { -a }) <= tdiv(a, b) <= (if a >= 0 { a } else { -a }),
{
    if a >= 0 {
        lemma_tdiv_nonneg(a, b);
    } else {
        lemma_tdiv_nonneg(-a, b);
    }
}

/// Truncated division is monotone in the dividend (positive divisor).
pub proof fn lemma_tdiv_mono(a1: int, a2: int, b: int)
    requires
        b > 0,
        a1 <= a2,
    ensures
        tdiv(a1, b) <= tdiv(a2, b),
{
    if a1 >= 0 {
        assert(a1 / b <= a2 / b) by (nonlinear_arith)
            requires 0 <= a1 <= a2 && b > 0,
        ;
    } else if a2 >= 0 {
        lemma_tdiv_nonneg(-a1, b);
        lemma_tdiv_nonneg(a2, b);
    } else {
        assert((-a2) / b <= (-a1) / b) by (nonlinear_arith)
            requires 0 < -a2 <= -a1 && b > 0,
        ;
    }
}

/// Truncated division of an exact multiple recovers the factor.
pub proof fn lemma_tdiv_exact(c: int, b: int)
    requires
        b > 0,
    ensures
        tdiv(c * b, b) == c,
{
    if c >= 0 {
        assert((c * b) / b == c) by (nonlinear_arith)
            requires b > 0 && c >= 0,
        ;
    } else {
        assert(-(c * b) == (-c) * b) by (nonlinear_arith);
        assert(((-c) * b) / b == -c) by (nonlinear_arith)
            requires b > 0 && -c >= 0,
        ;
    }
}

/// Bracketing for truncated division with arbitrary-sign brackets.
pub proof fn lemma_tdiv_bracket_gen(a: int, b: int, lo: int, hi: int)
    requires
        b > 0,
        lo * b <= a,
        a <= hi * b,
    ensures
        lo <= tdiv(a, b) <= hi,
{
    lemma_tdiv_exact(lo, b);
    lemma_tdiv_exact(hi, b);
    lemma_tdiv_mono(lo * b, a, b);
    lemma_tdiv_mono(a, hi * b, b);
}

/// Scaling both operands of a truncated division leaves it unchanged.
pub proof fn lemma_tdiv_scale(a: int, b: int, c: int)
    requires
        b > 0,
        c > 0,
    ensures
        tdiv(c * a, c * b) == tdiv(a, b),
{
    if a >= 0 {
        assert(c * a >= 0) by (nonlinear_arith)
            requires c > 0 && a >= 0,
        ;
        assert(c * b > 0) by (nonlinear_arith)
            requires c > 0 && b > 0,
        ;
        lemma_div_scale_nonneg(a, b, c);
    } else {
        assert(-(c * a) == c * (-a)) by (nonlinear_arith);
        assert(c * (-a) >= 0) by (nonlinear_arith)
            requires c > 0 && -a >= 0,
        ;
        assert(c * b > 0) by (nonlinear_arith)
            requires c > 0 && b > 0,
        ;
        lemma_div_scale_nonneg(-a, b, c);
    }
}

/// Euclidean division scaling for a nonnegative dividend.
proof fn lemma_div_scale_nonneg(a: int, b: int, c: int)
    requires
        a >= 0,
        b > 0,
        c > 0,
    ensures
        (c * a) / (c * b) == a / b,
{
    let q = a / b;
    let r = a % b;
    vstd::arithmetic::div_mod::lemma_fundamental_div_mod(a, b);
    assert(c * a == (c * b) * q + c * r) by (nonlinear_arith)
        requires a == b * q + r,
    ;
    assert(0 <= c * r < c * b) by (nonlinear_arith)
        requires c > 0 && 0 <= r < b,
    ;
    vstd::arithmetic::div_mod::lemma_fundamental_div_mod_converse(c * a, c * b, q, c * r);
}

/// Truncated division with a divisor of either sign (still truncating
/// toward zero).
pub open spec fn tdivs(a: int, b: int) -> int {
    if b >= 0 {
        tdiv(a, b)
    } else {
        tdiv(-a, -b)
    }
}

/// Magnitude bound for [`tdivs`].
pub proof fn lemma_tdivs_abs(a: int, b: int)
    requires
        b != 0,
    ensures
        -(if a >= 0 { a } else { -a }) <= tdivs(a, b) <= (if a >= 0 { a } else { -a }),
{
    if b > 0 {
        lemma_tdiv_abs(a, b);
    } else {
        lemma_tdiv_abs(-a, -b);
    }
}

/// Truncating division on `i128` with a nonzero divisor of either sign.
pub fn divt128s(a: i128, b: i128) -> (r: i128)
    requires
        b != 0,
        a > i128::MIN,
        b > i128::MIN,
    ensures
        r == tdivs(a as int, b as int),
{
    if b > 0 {
        divt128(a, b)
    } else {
        divt128(-a, -b)
    }
}

/// Truncating division on `i128`, matching [`tdiv`].
pub fn divt128(a: i128, b: i128) -> (r: i128)
    requires
        b > 0,
        a > i128::MIN,
    ensures
        r == tdiv(a as int, b as int),
{
    if a >= 0 {
        let q: u128 = (a as u128) / (b as u128);
        proof {
            lemma_tdiv_nonneg(a as int, b as int);
        }
        q as i128
    } else {
        let m: u128 = ((-a) as u128) / (b as u128);
        proof {
            lemma_tdiv_nonneg(-(a as int), b as int);
        }
        -(m as i128)
    }
}

/// Truncating division on `i64`, matching [`tdiv`].
pub fn divt64(a: i64, b: i64) -> (r: i64)
    requires
        b > 0,
        a > i64::MIN,
    ensures
        r == tdiv(a as int, b as int),
{
    if a >= 0 {
        let q: u64 = (a as u64) / (b as u64);
        proof {
            lemma_tdiv_nonneg(a as int, b as int);
        }
        q as i64
    } else {
        let m: u64 = ((-a) as u64) / (b as u64);
        proof {
            lemma_tdiv_nonneg(-(a as int), b as int);
        }
        -(m as i64)
    }
}

/// Flooring (Euclidean) division on `i64` with a positive divisor.
pub fn divf64(a: i64, b: i64) -> (r: i64)
    requires
        b > 0,
        a > i64::MIN + b,
    ensures
        r == a as int / b as int,
{
    let t: i64 = divt64(a, b);
    if a >= 0 {
        return t;
    }
    proof {
        lemma_tdiv_abs(a as int, b as int);
        vstd::arithmetic::div_mod::lemma_fundamental_div_mod(-(a as int), b as int);
        let q2 = (-(a as int)) / (b as int);
        let r2 = (-(a as int)) % (b as int);
        if r2 == 0 {
            assert(a as int == (-q2) * (b as int) + 0) by (nonlinear_arith)
                requires -(a as int) == (b as int) * q2 + r2 && r2 == 0,
            ;
            vstd::arithmetic::div_mod::lemma_fundamental_div_mod_converse(
                a as int,
                b as int,
                -q2,
                0,
            );
        } else {
            assert(a as int == (-q2 - 1) * (b as int) + ((b as int) - r2)) by (nonlinear_arith)
                requires -(a as int) == (b as int) * q2 + r2,
            ;
            vstd::arithmetic::div_mod::lemma_fundamental_div_mod_converse(
                a as int,
                b as int,
                -q2 - 1,
                (b as int) - r2,
            );
        }
    }
    let rem: u64 = ((-a) as u64) % (b as u64);
    if rem == 0 {
        t
    } else {
        t - 1
    }
}

/// Clamp an `i64` into `[lo, hi]`.
pub fn clamp64(x: i64, lo: i64, hi: i64) -> (r: i64)
    requires
        lo <= hi,
    ensures
        r == tclamp(x as int, lo as int, hi as int),
{
    if x < lo {
        lo
    } else if x > hi {
        hi
    } else {
        x
    }
}

/// Saturate an `i128` into the `i64`-returnable range `[-SAT_BOUND, SAT_BOUND]`.
pub fn sat64(x: i128) -> (r: i64)
    ensures
        r == tclamp(x as int, -SAT_BOUND as int, SAT_BOUND as int),
{
    if x < -SAT_BOUND as i128 {
        -SAT_BOUND
    } else if x > SAT_BOUND as i128 {
        SAT_BOUND
    } else {
        x as i64
    }
}

/// Floor of the square root of a `u128`.
pub fn isqrt128(x: u128) -> (r: u128)
    ensures
        r == sqrt_floor(x as int),
        is_sqrt(x as int, r as int),
{
    let mut lo: u128 = 0;
    let mut hi: u128 = 1u128 << 64;
    proof {
        assert((1u128 << 64) == 0x1_0000_0000_0000_0000u128) by (bit_vector);
        assert((0x1_0000_0000_0000_0000u128 as int) * (0x1_0000_0000_0000_0000u128 as int)
            > u128::MAX as int) by (nonlinear_arith);
    }
    while lo + 1 < hi
        invariant
            0 <= lo < hi,
            hi <= 0x1_0000_0000_0000_0000u128,
            (lo as int) * (lo as int) <= x as int,
            (x as int) < (hi as int) * (hi as int),
        decreases hi - lo,
    {
        let mid: u128 = lo + (hi - lo) / 2;
        assert(mid < 0x1_0000_0000_0000_0000u128);
        assert((mid as int) * (mid as int) <= u128::MAX as int) by (nonlinear_arith)
            requires (mid as int) < 0x1_0000_0000_0000_0000int,
        ;
        if mid * mid <= x {
            lo = mid;
        } else {
            hi = mid;
        }
    }
    proof {
        assert(is_sqrt(x as int, lo as int));
        lemma_sqrt_exists(x as int);
        lemma_sqrt_unique(x as int, lo as int, sqrt_floor(x as int));
    }
    lo
}

/// Fixed-point square root: the floor square root of `v * SCALE`, so the
/// result is again in fixed-point units.
pub fn fx_sqrt(v: i64) -> (r: i64)
    requires
        0 <= v,
    ensures
        r == sqrt_floor(v * SCALE),
        is_sqrt(v * SCALE, r as int),
        r >= 0,
{
    proof {
        assert((v as int) * (SCALE as int) <= u128::MAX as int) by (nonlinear_arith)
            requires 0 <= v as int <= i64::MAX as int && SCALE as int == 10000,
        ;
    }
    let prod: u128 = (v as u128) * (SCALE as u128);
    let r: u128 = isqrt128(prod);
    proof {
        assert((r as int) * (r as int) <= (v as int) * (SCALE as int));
        assert((r as int) <= 4_000_000_000_000int) by (nonlinear_arith)
            requires
                (r as int) * (r as int) <= (v as int) * (SCALE as int),
                0 <= (v as int) <= i64::MAX as int,
                (SCALE as int) == 10000,
                r as int >= 0,
        ;
    }
    r as i64
}

} // verus!
