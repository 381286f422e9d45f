//! Comparing floating-point numbers by their bits.
//!
//! A 64-bit IEEE 754 number is carried as its bits. Comparisons need no arithmetic on it: apart
//! from NaN, the numbers order as their magnitudes with the sign do, and both zeros are equal.

use vstd::arithmetic::power2::pow2;
use vstd::prelude::*;

verus! {

/// The bits of 0.
pub const ZERO: u64 = 0;

/// The bits of 1.
pub const ONE: u64 = 0x3FF0_0000_0000_0000;

/// The bits of -1.
pub const MINUS_ONE: u64 = 0xBFF0_0000_0000_0000;

/// The bits of 20.
pub const TWENTY: u64 = 0x4034_0000_0000_0000;

/// The bits of 90.
pub const NINETY: u64 = 0x4056_8000_0000_0000;

/// 10^-12: a vector below this length has no direction to speak of.
pub const SHORT: u64 = 0x3D71_9799_812D_EA11;

/// The bits of 0.99.
pub const NEARLY_ONE: u64 = 0x3FEF_AE14_7AE1_47AE;

/// The bits of -0.99.
pub const NEARLY_MINUS_ONE: u64 = 0xBFEF_AE14_7AE1_47AE;

/// The bits of 1 in single precision.
pub const SINGLE_ONE: u32 = 0x3F80_0000;

/// The bits of what is not a number, in single precision.
pub const SINGLE_NAN: u32 = 0x7FC0_0000;

/// The bits without the sign.
pub open spec fn magnitude(b: u64) -> int {
    if b < 0x8000_0000_0000_0000 {
        b as int
    } else {
        b - 0x8000_0000_0000_0000
    }
}

/// What orders the numbers: the magnitude with the sign.
pub open spec fn rank(b: u64) -> int {
    if b < 0x8000_0000_0000_0000 {
        magnitude(b)
    } else {
        -magnitude(b)
    }
}

/// Whether the bits are not a number.
pub open spec fn is_nan(b: u64) -> bool {
    magnitude(b) > 0x7FF0_0000_0000_0000
}

/// Whether the bits are a number, and not an infinite one.
pub open spec fn is_finite(b: u64) -> bool {
    magnitude(b) < 0x7FF0_0000_0000_0000
}

/// `a < b`, which is false where either is not a number.
pub open spec fn below(a: u64, b: u64) -> bool {
    !is_nan(a) && !is_nan(b) && rank(a) < rank(b)
}

/// `a <= b`, which is false where either is not a number.
pub open spec fn at_most(a: u64, b: u64) -> bool {
    !is_nan(a) && !is_nan(b) && rank(a) <= rank(b)
}

fn sign_rank(b: u64) -> (r: i64)
    ensures
        r == rank(b),
{
    if b < 0x8000_0000_0000_0000 {
        b as i64
    } else {
        -((b - 0x8000_0000_0000_0000) as i64)
    }
}

/// Whether the bits are not a number.
pub fn nan(b: u64) -> (r: bool)
    ensures
        r == is_nan(b),
{
    if b < 0x8000_0000_0000_0000 {
        b > 0x7FF0_0000_0000_0000
    } else {
        b - 0x8000_0000_0000_0000 > 0x7FF0_0000_0000_0000
    }
}

/// Whether the bits are a number, and not an infinite one.
pub fn finite(b: u64) -> (r: bool)
    ensures
        r == is_finite(b),
{
    if b < 0x8000_0000_0000_0000 {
        b < 0x7FF0_0000_0000_0000
    } else {
        b - 0x8000_0000_0000_0000 < 0x7FF0_0000_0000_0000
    }
}

/// `a < b`.
pub fn less(a: u64, b: u64) -> (r: bool)
    ensures
        r == below(a, b),
{
    !nan(a) && !nan(b) && sign_rank(a) < sign_rank(b)
}

/// `a <= b`.
pub fn less_or_equal(a: u64, b: u64) -> (r: bool)
    ensures
        r == at_most(a, b),
{
    !nan(a) && !nan(b) && sign_rank(a) <= sign_rank(b)
}

/// The larger of `b` and zero; zero for what is not a number.
pub open spec fn not_negative(b: u64) -> u64 {
    if at_most(ZERO, b) {
        b
    } else {
        ZERO
    }
}

/// The larger of `b` and zero; zero for what is not a number.
pub fn without_negative(b: u64) -> (r: u64)
    ensures
        r == not_negative(b),
{
    if less_or_equal(ZERO, b) {
        b
    } else {
        ZERO
    }
}

/// `b` moved into the range from `lo` to `hi`.
pub open spec fn between(lo: u64, b: u64, hi: u64) -> u64 {
    if below(b, lo) {
        lo
    } else if below(hi, b) {
        hi
    } else {
        b
    }
}

/// `b` moved into the range from `lo` to `hi`; what is not a number stays so.
pub fn clamp(lo: u64, b: u64, hi: u64) -> (r: u64)
    ensures
        r == between(lo, b, hi),
{
    if less(b, lo) {
        lo
    } else if less(hi, b) {
        hi
    } else {
        b
    }
}

/// Three numbers.
pub type Bits3 = (u64, u64, u64);

/// Whether any of three numbers is negative.
pub open spec fn any_negative(c: Bits3) -> bool {
    below(c.0, ZERO) || below(c.1, ZERO) || below(c.2, ZERO)
}

/// Three numbers, negative ones set to zero where there are any.
pub open spec fn all_not_negative(c: Bits3) -> Bits3 {
    if any_negative(c) {
        (not_negative(c.0), not_negative(c.1), not_negative(c.2))
    } else {
        c
    }
}

/// Three numbers, negative ones set to zero; and whether there were any.
pub fn drop_negative(c: Bits3) -> (r: (Bits3, bool))
    ensures
        r.0 == all_not_negative(c),
        r.1 == any_negative(c),
{
    if less(c.0, ZERO) || less(c.1, ZERO) || less(c.2, ZERO) {
        ((without_negative(c.0), without_negative(c.1), without_negative(c.2)), true)
    } else {
        (c, false)
    }
}

/// Whether all three numbers are zero.
pub open spec fn black(c: Bits3) -> bool {
    magnitude(c.0) == 0 && magnitude(c.1) == 0 && magnitude(c.2) == 0
}

/// Whether all three numbers are zero, of either sign. A colour with a negative part is not black.
pub fn is_black(c: Bits3) -> (r: bool)
    ensures
        r == black(c),
{
    (c.0 == 0 || c.0 == 0x8000_0000_0000_0000) && (c.1 == 0 || c.1 == 0x8000_0000_0000_0000) && (
    c.2 == 0 || c.2 == 0x8000_0000_0000_0000)
}

/// A number that is moved into a range lies in it, and one that lies in it stays.
pub proof fn clamped_is_in_range(lo: u64, b: u64, hi: u64)
    requires
        at_most(lo, hi),
        !is_nan(b),
    ensures
        at_most(lo, between(lo, b, hi)),
        at_most(between(lo, b, hi), hi),
        at_most(lo, b) && at_most(b, hi) ==> between(lo, b, hi) == b,
{
}

/// `n` divided by `unit`, to the nearest whole number; halfway, to the even one.
pub open spec fn rounded(n: int, unit: int) -> int {
    let q = n / unit;
    let r = n % unit;
    if 2 * r > unit || (2 * r == unit && q % 2 == 1) {
        q + 1
    } else {
        q
    }
}

/// The bits of the single-precision number that is nearest to a number between 0 and 1, given by
/// its bits: the 29 last bits of the significand are rounded away, and more of them for numbers
/// that single precision only holds with fewer.
pub open spec fn narrowed(b: int) -> int {
    if b >= 897 * 0x10_0000_0000_0000 {
        rounded(b, 0x2000_0000) - 896 * 0x80_0000
    } else if b >= 0x10_0000_0000_0000 {
        let e = b / 0x10_0000_0000_0000;
        rounded(b % 0x10_0000_0000_0000 + 0x10_0000_0000_0000, pow2((926 - e) as nat) as int)
    } else {
        0
    }
}

/// A number between 0 and 1, or none at all, in single precision.
pub open spec fn single(b: u64) -> u32 {
    if is_nan(b) {
        SINGLE_NAN
    } else if b < 0x8000_0000_0000_0000 {
        narrowed(magnitude(b)) as u32
    } else {
        (0x8000_0000 + narrowed(magnitude(b))) as u32
    }
}

fn round_to(n: u64, unit: u64) -> (r: u64)
    requires
        0 < unit <= 0x40_0000_0000_0000,
        n <= ONE,
    ensures
        r == rounded(n as int, unit as int),
{
    let q: u64 = n / unit;
    let rest: u64 = n % unit;
    proof {
        assert(q <= n) by (nonlinear_arith)
            requires
                q == n / unit,
                unit > 0,
        ;
    }
    if 2 * rest > unit || (2 * rest == unit && q % 2 == 1) {
        q + 1
    } else {
        q
    }
}

fn narrow(b: u64) -> (r: u32)
    requires
        b <= ONE,
    ensures
        r == narrowed(b as int),
        r <= 0x3F80_0000,
{
    if b >= 897 * 0x10_0000_0000_0000 {
        return (round_to(b, 0x2000_0000) - 896 * 0x80_0000) as u32;
    }
    if b < 0x10_0000_0000_0000 {
        return 0;
    }
    let e: u64 = b / 0x10_0000_0000_0000;
    let m: u64 = b % 0x10_0000_0000_0000 + 0x10_0000_0000_0000;
    let s: u64 = 926 - e;
    proof {
        vstd::arithmetic::power2::lemma2_to64();
        vstd::arithmetic::power2::lemma2_to64_rest();
    }
    if s >= 54 {
        proof {
            if s > 54 {
                vstd::arithmetic::power2::lemma_pow2_strictly_increases(54, s as nat);
            }
            let u = pow2(s as nat) as int;
            vstd::arithmetic::div_mod::lemma_small_mod(m as nat, u as nat);
            vstd::arithmetic::div_mod::lemma_basic_div(m as int, u);
        }
        return 0;
    }
    proof {
        vstd::bits::lemma_u64_shl_is_mul(1, s);
        if s < 54 {
            vstd::arithmetic::power2::lemma_pow2_strictly_increases(s as nat, 54);
        }
        if s > 30 {
            vstd::arithmetic::power2::lemma_pow2_strictly_increases(30, s as nat);
        }
    }
    let unit: u64 = 1u64 << s;
    let r: u64 = round_to(m, unit);
    assert(m as int / unit as int <= 0x80_0000) by (nonlinear_arith)
        requires
            m < 0x20_0000_0000_0000,
            unit >= 0x4000_0000,
    ;
    r as u32
}

/// A number between 0 and 1, or none at all, rounded to single precision.
pub fn to_single(b: u64) -> (r: u32)
    requires
        is_nan(b) || magnitude(b) <= ONE,
    ensures
        r == single(b),
{
    if nan(b) {
        SINGLE_NAN
    } else if b < 0x8000_0000_0000_0000 {
        narrow(b)
    } else {
        0x8000_0000 + narrow(b - 0x8000_0000_0000_0000)
    }
}

} // verus!
