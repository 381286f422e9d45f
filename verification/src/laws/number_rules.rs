//! Numbers: floating-point numbers are compared by their values, rounding goes to the nearest, and
//! seeds are mixed by fixed steps.

use super::text_rules::pieces_come_one_by_one;
use crate::bvh::keys::key_of;
use crate::constants::revision_of;
use crate::decimal::{decimal_text, hex_text, lemma_decimal_text};
use crate::reals::{at_most, below, between, is_finite, is_nan, not_negative, rounded, single};
use crate::rng::splitmix64_of;
use crate::text::{all_digits, digits_value, is_digit};
use vstd::arithmetic::power2::{
    lemma_pow2_pos, lemma_pow2_strictly_increases, lemma_pow2_unfold, pow2,
};
use vstd::arithmetic::power::{lemma_pow_positive, pow};
use vstd::prelude::*;

verus! {

/// The size of the number with these bits, as a multiple of the least one that is not zero: the low
/// 52 bits are digits, those above them say how often these are doubled.
pub open spec fn size_of_bits(m: int) -> int {
    let e = m / 0x10_0000_0000_0000;
    let f = m % 0x10_0000_0000_0000;
    if e == 0 {
        f
    } else {
        (0x10_0000_0000_0000 + f) * (pow2((e - 1) as nat) as int)
    }
}

/// The number with these bits: the first bit is the sign.
pub open spec fn value_of_bits(b: u64) -> int {
    if b < 0x8000_0000_0000_0000 {
        size_of_bits(b as int)
    } else {
        -size_of_bits(b - 0x8000_0000_0000_0000)
    }
}

proof fn lemma_sizes_grow(a: int, b: int)
    requires
        0 <= a < b,
    ensures
        0 <= size_of_bits(a) < size_of_bits(b),
{
    let k = 0x10_0000_0000_0000int;
    let (e, f) = (a / k, a % k);
    let (g, h) = (b / k, b % k);
    assert(a == e * k + f && b == g * k + h && 0 <= f < k && 0 <= h < k);
    assert(e <= g);
    lemma_pow2_pos(0);
    vstd::arithmetic::power2::lemma2_to64();
    if e > 0 {
        lemma_pow2_pos((e - 1) as nat);
        let p = pow2((e - 1) as nat) as int;
        assert((k + f) * p > 0) by (nonlinear_arith)
            requires
                k > 0,
                f >= 0,
                p > 0,
        ;
    }
    if e == g {
        assert(f < h);
        if e > 0 {
            let p = pow2((e - 1) as nat) as int;
            assert((k + f) * p < (k + h) * p) by (nonlinear_arith)
                requires
                    f < h,
                    p > 0,
            ;
        }
    } else {
        lemma_pow2_pos((g - 1) as nat);
        let q = pow2((g - 1) as nat) as int;
        assert((k + h) * q >= k * q) by (nonlinear_arith)
            requires
                h >= 0,
                q > 0,
        ;
        if e == 0 {
            assert(k * q >= k) by (nonlinear_arith)
                requires
                    q >= 1,
                    k > 0,
            ;
        } else {
            let p = pow2((e - 1) as nat) as int;
            lemma_pow2_unfold(e as nat);
            if e < g - 1 {
                lemma_pow2_strictly_increases(e as nat, (g - 1) as nat);
            }
            assert(q >= 2 * p);
            assert((k + f) * p < k * q) by (nonlinear_arith)
                requires
                    0 <= f < k,
                    q >= 2 * p,
                    p > 0,
                    k > 0,
            ;
        }
    }
}

/// Numbers are compared by their values; what is not a number is neither below nor above anything.
pub proof fn numbers_are_compared_by_value(a: u64, b: u64)
    ensures
        below(a, b) <==> !is_nan(a) && !is_nan(b) && value_of_bits(a) < value_of_bits(b),
        at_most(a, b) <==> !is_nan(a) && !is_nan(b) && value_of_bits(a) <= value_of_bits(b),
        is_nan(a) <==> a % 0x8000_0000_0000_0000 > 0x7FF0_0000_0000_0000,
        is_finite(a) <==> a % 0x8000_0000_0000_0000 < 0x7FF0_0000_0000_0000,
{
    let m = |x: u64|
        if x < 0x8000_0000_0000_0000 {
            x as int
        } else {
            x - 0x8000_0000_0000_0000
        };
    let (x, y) = (m(a), m(b));
    if x < y {
        lemma_sizes_grow(x, y);
    }
    if y < x {
        lemma_sizes_grow(y, x);
    }
    if x > 0 {
        lemma_sizes_grow(0, x);
    }
    if y > 0 {
        lemma_sizes_grow(0, y);
    }
    assert(size_of_bits(0) == 0);
}

/// A number is moved to the nearer end of a range that it lies outside of.
pub proof fn clamping_goes_to_the_nearer_end(lo: u64, b: u64, hi: u64)
    requires
        at_most(lo, hi),
    ensures
        below(b, lo) ==> between(lo, b, hi) == lo,
        below(hi, b) ==> between(lo, b, hi) == hi,
        at_most(lo, b) && at_most(b, hi) ==> between(lo, b, hi) == b,
        is_nan(b) ==> between(lo, b, hi) == b,
        below(b, 0) || is_nan(b) ==> not_negative(b) == 0,
        at_most(0, b) ==> not_negative(b) == b,
{
}

/// The numbers that bounds are stated with are what they are called, in units of one.
pub proof fn bounds_have_their_values()
    ensures
        ({
            let one = value_of_bits(0x3FF0_0000_0000_0000);
            &&& value_of_bits(crate::reals::ZERO) == 0
            &&& value_of_bits(crate::reals::ONE) == one && one == pow2(1074)
            &&& value_of_bits(crate::reals::MINUS_ONE) == -one
            &&& value_of_bits(crate::reals::TWENTY) == 20 * one
            &&& value_of_bits(crate::reals::NINETY) == 90 * one
        }),
{
    let p = pow2(1022) as int;
    vstd::arithmetic::power2::lemma2_to64();
    vstd::arithmetic::power2::lemma2_to64_rest();
    vstd::arithmetic::power2::lemma_pow2_adds(52, 1022);
    vstd::arithmetic::power2::lemma_pow2_adds(4, 1022);
    vstd::arithmetic::power2::lemma_pow2_adds(6, 1022);
    assert(size_of_bits(0x3FF0_0000_0000_0000) == 0x10_0000_0000_0000 * p);
    assert(size_of_bits(0x4034_0000_0000_0000) == 0x14_0000_0000_0000 * (pow2(1026) as int));
    assert(size_of_bits(0x4056_8000_0000_0000) == 0x16_8000_0000_0000 * (pow2(1028) as int));
    assert(pow2(1026) == 16 * p && pow2(1028) == 64 * p);
}

/// Rounding goes to the nearest multiple; halfway between two, to the even one.
pub proof fn rounding_is_to_the_nearest(n: int, unit: int)
    requires
        n >= 0,
        unit > 0,
    ensures
        ({
            let r = rounded(n, unit);
            &&& 2 * (r * unit - n) <= unit
            &&& 2 * (n - r * unit) <= unit
            &&& (2 * (r * unit - n) == unit || 2 * (n - r * unit) == unit) ==> r % 2 == 0
        }),
{
    let q = n / unit;
    let r = n % unit;
    vstd::arithmetic::div_mod::lemma_fundamental_div_mod(n, unit);
    assert(unit * q == q * unit) by (nonlinear_arith);
    assert((q + 1) * unit == q * unit + unit) by (nonlinear_arith);
    assert(0 <= r < unit);
}

/// A number from one 2^126th to one keeps its value in single precision, but for the digits that do
/// not fit.
pub proof fn single_precision_keeps_the_value(b: u64)
    requires
        0x3810_0000_0000_0000 <= b <= 0x3FF0_0000_0000_0000,
    ensures
        ({
            let s = single(b) as int;
            let wide = s * 0x2000_0000 + 0x3800_0000_0000_0000;
            &&& 2 * (wide - b) <= 0x2000_0000
            &&& 2 * (b - wide) <= 0x2000_0000
            &&& (2 * (wide - b) == 0x2000_0000 || 2 * (b - wide) == 0x2000_0000) ==> s % 2 == 0
        }),
{
    rounding_is_to_the_nearest(b as int, 0x2000_0000);
}

/// Seeds are mixed by an addition, two products and three shifted exclusive ors, modulo 2^64.
pub proof fn seeds_are_mixed_by_fixed_steps(x: u64, a: u64, b: u64, c: u64)
    requires
        a == (x + 0x9E37_79B9_7F4A_7C15) % 0x1_0000_0000_0000_0000,
        b == ((a ^ (a >> 30)) * 0xBF58_476D_1CE4_E5B9) % 0x1_0000_0000_0000_0000,
        c == ((b ^ (b >> 27)) * 0x94D0_49BB_1331_11EB) % 0x1_0000_0000_0000_0000,
    ensures
        splitmix64_of(x) == c ^ (c >> 31),
{
}

/// The keys that stand for numbers order as they do.
pub proof fn keys_order_as_numbers(a: u64, b: u64)
    requires
        below(a, b),
    ensures
        key_of(a) < key_of(b),
{
}

/// The value of a hexadecimal digit.
pub open spec fn hex_value(c: char) -> int {
    if '0' <= c <= '9' {
        c as int - '0' as int
    } else {
        c as int - 'a' as int + 10
    }
}

/// The value of hexadecimal digits, the last of which counts once.
pub open spec fn hex_number(s: Seq<char>) -> int
    decreases s.len(),
{
    if s.len() == 0 {
        0
    } else {
        16 * hex_number(s.drop_last()) + hex_value(s.last())
    }
}

/// A number in hexadecimal digits is that number, with zeros in front up to the length; the digits
/// are small.
pub proof fn hexadecimal_digits_are_the_number(n: nat, k: nat)
    ensures
        hex_text(n, k).len() == k,
        hex_number(hex_text(n, k)) == n as int % (pow(16, k)),
        forall|i: int|
            0 <= i < k ==> '0' <= #[trigger] hex_text(n, k)[i] <= '9' || 'a' <= hex_text(n, k)[i]
                <= 'f',
    decreases k,
{
    lemma_pow_positive(16, k);
    if k > 0 {
        let m = (k - 1) as nat;
        hexadecimal_digits_are_the_number(n / 16, m);
        lemma_pow_positive(16, m);
        let t = hex_text(n, k);
        assert(t.drop_last() =~= hex_text(n / 16, m));
        vstd::arithmetic::power::lemma_pow_adds(16, 1, m);
        vstd::arithmetic::power::lemma_pow1(16);
        vstd::arithmetic::div_mod::lemma_breakdown(n as int, 16, pow(16, m));
        assert forall|i: int| 0 <= i < k implies '0' <= #[trigger] t[i] <= '9' || 'a' <= t[i] <= 'f' by {
            if i < m {
                assert(t[i] == hex_text(n / 16, m)[i]);
            }
        }
    } else {
        vstd::arithmetic::power::lemma_pow0(16);
    }
}

/// The revision of a version is its three numbers, each with three digits but the first.
pub proof fn revisions_are_read_off_versions(a: nat, b: nat, c: nat)
    requires
        a < 4000,
        b < 1000,
        c < 1000,
    ensures
        revision_of(decimal_text(a) + seq!['.'] + (decimal_text(b) + seq!['.'] + decimal_text(c)))
            == Some(1_000_000int * a + 1_000 * b + c),
{
    let (x, y, z) = (decimal_text(a), decimal_text(b), decimal_text(c));
    lemma_version_part(a);
    lemma_version_part(b);
    lemma_version_part(c);
    pieces_come_one_by_one(z, '.', Seq::empty());
    pieces_come_one_by_one(y, '.', z);
    pieces_come_one_by_one(x, '.', y + seq!['.'] + z);
    assert(seq![x] + (seq![y] + seq![z]) =~= seq![x, y, z]);
}

proof fn lemma_version_part(a: nat)
    ensures
        decimal_text(a).len() > 0 && all_digits(decimal_text(a)),
        digits_value(decimal_text(a)) == a,
        !decimal_text(a).contains('.'),
{
    lemma_decimal_text(a);
    let t = decimal_text(a);
    if t.contains('.') {
        let i = choose|i: int| 0 <= i < t.len() && t[i] == '.';
        assert(is_digit(t[i]));
    }
}

} // verus!
