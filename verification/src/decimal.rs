//! Numbers as text: decimal and hexadecimal digits.

use crate::text::{all_digits, digits_value, is_digit};
use vstd::prelude::*;

verus! {

/// The decimal digit of `d`.
pub open spec fn digit_char(d: int) -> char {
    ('0' as u32 + d) as char
}

/// A number in decimal, without leading zeros.
pub open spec fn decimal_text(n: nat) -> Seq<char>
    decreases n,
{
    if n < 10 {
        seq![digit_char(n as int)]
    } else {
        decimal_text(n / 10).push(digit_char((n % 10) as int))
    }
}

/// Reading a number in decimal gives back the number.
pub proof fn lemma_decimal_text(n: nat)
    ensures
        decimal_text(n).len() > 0,
        all_digits(decimal_text(n)),
        digits_value(decimal_text(n)) == n,
    decreases n,
{
    let s = decimal_text(n);
    if n < 10 {
        reveal_with_fuel(digits_value, 2);
        assert(s.drop_last() =~= Seq::<char>::empty());
    } else {
        lemma_decimal_text(n / 10);
        let t = decimal_text(n / 10);
        assert(s.drop_last() =~= t);
        assert forall|i: int| 0 <= i < s.len() implies is_digit(#[trigger] s[i]) by {
            if i < t.len() {
                assert(is_digit(t[i]));
            }
        }
    }
}

/// The bytes of ASCII text.
pub open spec fn ascii(s: Seq<char>) -> Seq<u8> {
    s.map_values(|c: char| (c as u32) as u8)
}

/// A number in decimal.
pub fn to_decimal(n: u64) -> (r: Vec<char>)
    ensures
        r@ == decimal_text(n as nat),
    decreases n,
{
    let mut r: Vec<char> = if n < 10 {
        Vec::new()
    } else {
        to_decimal(n / 10)
    };
    let d: u8 = (n % 10) as u8;
    r.push((48 + d) as char);
    assert(r@ =~= decimal_text(n as nat));
    r
}

/// Appends the bytes of ASCII text.
pub fn push_ascii(out: &mut Vec<u8>, s: &[char])
    ensures
        final(out)@ == old(out)@ + ascii(s@),
{
    let ghost start = out@;
    let mut i: usize = 0;
    while i < s.len()
        invariant
            i <= s@.len(),
            out@ == start + ascii(s@.take(i as int)),
        decreases s@.len() - i,
    {
        let u: u32 = s[i] as u32;
        let b: u8 = #[verifier::truncate] (u as u8);
        out.push(b);
        i += 1;
        assert(out@ =~= start + ascii(s@.take(i as int)));
    }
    assert(s@.take(i as int) =~= s@);
}

/// Appends a number in decimal.
pub fn push_decimal(out: &mut Vec<u8>, n: u64)
    ensures
        final(out)@ == old(out)@ + ascii(decimal_text(n as nat)),
{
    let d = to_decimal(n);
    push_ascii(out, &d);
}

/// The hexadecimal digit of `d`, in lower case.
pub open spec fn hex_char(d: int) -> char {
    if d < 10 {
        ('0' as u32 + d) as char
    } else {
        ('a' as u32 + (d - 10)) as char
    }
}

/// The lowest `k` hexadecimal digits of a number, highest first.
pub open spec fn hex_text(n: nat, k: nat) -> Seq<char>
    decreases k,
{
    if k == 0 {
        Seq::empty()
    } else {
        hex_text(n / 16, (k - 1) as nat).push(hex_char((n % 16) as int))
    }
}

/// The lowest `k` hexadecimal digits of a number.
pub fn to_hex(n: u64, k: u32) -> (r: Vec<char>)
    ensures
        r@ == hex_text(n as nat, k as nat),
    decreases k,
{
    if k == 0 {
        return Vec::new();
    }
    let mut r = to_hex(n / 16, k - 1);
    let d: u8 = (n % 16) as u8;
    r.push(
        if d < 10 {
            (48 + d) as char
        } else {
            (97 + (d - 10)) as char
        },
    );
    assert(r@ =~= hex_text(n as nat, k as nat));
    r
}

/// The digits of a number below 16^k tell it apart from every other.
pub proof fn hex_text_is_unique(a: nat, b: nat, k: nat)
    requires
        hex_text(a, k) == hex_text(b, k),
        a < vstd::arithmetic::power::pow(16, k),
        b < vstd::arithmetic::power::pow(16, k),
    ensures
        a == b,
    decreases k,
{
    reveal(vstd::arithmetic::power::pow);
    if k > 0 {
        let x = hex_text(a / 16, (k - 1) as nat);
        let y = hex_text(b / 16, (k - 1) as nat);
        let ca = hex_char((a % 16) as int);
        let cb = hex_char((b % 16) as int);
        assert(x.push(ca).drop_last() =~= x);
        assert(y.push(cb).drop_last() =~= y);
        assert(x.push(ca).last() == ca && y.push(cb).last() == cb);
        hex_text_is_unique(a / 16, b / 16, (k - 1) as nat);
        assert(a % 16 == b % 16);
    }
}

} // verus!
