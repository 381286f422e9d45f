//! The two checksums of a PNG file: CRC-32 of every chunk and Adler-32 of the zlib stream.

use vstd::prelude::*;

verus! {

/// One bit of the CRC register: shift right, and subtract the polynomial when a one falls out.
pub open spec fn crc_bit(c: u32) -> u32 {
    if c & 1 != 0 {
        0xEDB8_8320 ^ (c >> 1)
    } else {
        c >> 1
    }
}

/// `k` bits of the CRC register.
pub open spec fn crc_bits(c: u32, k: nat) -> u32
    decreases k,
{
    if k == 0 {
        c
    } else {
        crc_bit(crc_bits(c, (k - 1) as nat))
    }
}

/// The CRC register after one more byte.
pub open spec fn crc_byte(c: u32, b: u8) -> u32 {
    crc_bits(c ^ (b as u32), 8)
}

/// The CRC register after the bytes of `s`, started at `c`.
pub open spec fn crc_register(c: u32, s: Seq<u8>) -> u32
    decreases s.len(),
{
    if s.len() == 0 {
        c
    } else {
        crc_byte(crc_register(c, s.drop_last()), s.last())
    }
}

/// CRC-32 with the polynomial 0xEDB88320, as PNG and zlib use it.
pub open spec fn crc32_of(s: Seq<u8>) -> u32 {
    !crc_register(0xFFFF_FFFF, s)
}

/// The parts of a message, one after the other.
pub open spec fn joined(parts: Seq<&[u8]>) -> Seq<u8>
    decreases parts.len(),
{
    if parts.len() == 0 {
        Seq::empty()
    } else {
        joined(parts.drop_last()) + parts.last()@
    }
}

/// The first 256 registers, eight bits on: what one byte contributes to the CRC.
fn crc_table() -> (t: Vec<u32>)
    ensures
        t@.len() == 256,
        forall|i: int| 0 <= i < 256 ==> #[trigger] t@[i] == crc_bits(i as u32, 8),
{
    let mut t: Vec<u32> = Vec::with_capacity(256);
    let mut n: u32 = 0;
    while n < 256
        invariant
            n <= 256,
            t@.len() == n,
            forall|i: int| 0 <= i < n ==> #[trigger] t@[i] == crc_bits(i as u32, 8),
        decreases 256 - n,
    {
        let mut c: u32 = n;
        let mut k: u32 = 0;
        while k < 8
            invariant
                k <= 8,
                c == crc_bits(n, k as nat),
            decreases 8 - k,
        {
            c = if c & 1 != 0 {
                0xEDB8_8320 ^ (c >> 1)
            } else {
                c >> 1
            };
            k += 1;
        }
        t.push(c);
        n += 1;
    }
    t
}

/// Eight bits of the register split into what the low byte contributes and the rest shifted down.
proof fn lemma_crc_table_step(x: u32)
    ensures
        crc_bits(x, 8) == crc_bits(x & 0xFF, 8) ^ (x >> 8),
{
    reveal_with_fuel(crc_bits, 9);
    let y: u32 = x & 0xFF;
    let x1 = crc_bit(x);
    let x2 = crc_bit(x1);
    let x3 = crc_bit(x2);
    let x4 = crc_bit(x3);
    let x5 = crc_bit(x4);
    let x6 = crc_bit(x5);
    let x7 = crc_bit(x6);
    let x8 = crc_bit(x7);
    let y1 = crc_bit(y);
    let y2 = crc_bit(y1);
    let y3 = crc_bit(y2);
    let y4 = crc_bit(y3);
    let y5 = crc_bit(y4);
    let y6 = crc_bit(y5);
    let y7 = crc_bit(y6);
    let y8 = crc_bit(y7);
    assert(x == y ^ ((x >> 8) << 8)) by (bit_vector)
        requires
            y == x & 0xFFu32,
    ;
    let h: u32 = x >> 8;
    assert(h < 0x0100_0000) by (bit_vector)
        requires
            h == x >> 8,
    ;
    assert((h << 8) >> 1 == h << 7 && (h << 8) & 1 == 0 && (h << 7) >> 1 == h << 6 && (h << 7) & 1
        == 0 && (h << 6) >> 1 == h << 5 && (h << 6) & 1 == 0 && (h << 5) >> 1 == h << 4 && (h << 5)
        & 1 == 0 && (h << 4) >> 1 == h << 3 && (h << 4) & 1 == 0 && (h << 3) >> 1 == h << 2 && (h
        << 3) & 1 == 0 && (h << 2) >> 1 == h << 1 && (h << 2) & 1 == 0 && (h << 1) >> 1 == h && (h
        << 1) & 1 == 0) by (bit_vector)
        requires
            h < 0x0100_0000,
    ;
    lemma_crc_split(x, y, h << 8);
    lemma_crc_split(x1, y1, h << 7);
    lemma_crc_split(x2, y2, h << 6);
    lemma_crc_split(x3, y3, h << 5);
    lemma_crc_split(x4, y4, h << 4);
    lemma_crc_split(x5, y5, h << 3);
    lemma_crc_split(x6, y6, h << 2);
    lemma_crc_split(x7, y7, h << 1);
}

/// A register that differs by even bits only still differs by those bits, one place down.
proof fn lemma_crc_split(x: u32, y: u32, d: u32)
    requires
        d & 1 == 0,
        x == y ^ d,
    ensures
        crc_bit(x) == crc_bit(y) ^ (d >> 1),
{
    assert((y ^ d) & 1 == y & 1) by (bit_vector)
        requires
            d & 1 == 0,
    ;
    assert((y ^ d) >> 1 == (y >> 1) ^ (d >> 1)) by (bit_vector);
    let p: u32 = y >> 1;
    let q: u32 = d >> 1;
    assert(0xEDB8_8320u32 ^ (p ^ q) == (0xEDB8_8320u32 ^ p) ^ q) by (bit_vector);
}

/// CRC-32 of `parts` joined together.
pub fn crc32(parts: &[&[u8]]) -> (r: u32)
    ensures
        r == crc32_of(joined(parts@)),
{
    let table = crc_table();
    let mut c: u32 = 0xFFFF_FFFF;
    let mut p: usize = 0;
    while p < parts.len()
        invariant
            p <= parts@.len(),
            table@.len() == 256,
            forall|i: int| 0 <= i < 256 ==> #[trigger] table@[i] == crc_bits(i as u32, 8),
            c == crc_register(0xFFFF_FFFF, joined(parts@.take(p as int))),
        decreases parts@.len() - p,
    {
        let part: &[u8] = parts[p];
        let ghost before = joined(parts@.take(p as int));
        let mut i: usize = 0;
        proof {
            assert(before + part@.take(0) =~= before);
        }
        while i < part.len()
            invariant
                i <= part@.len(),
                table@.len() == 256,
                forall|i: int| 0 <= i < 256 ==> #[trigger] table@[i] == crc_bits(i as u32, 8),
                c == crc_register(0xFFFF_FFFF, before + part@.take(i as int)),
            decreases part@.len() - i,
        {
            let b: u8 = part[i];
            let x: u32 = c ^ (b as u32);
            let k: u32 = x & 0xFF;
            assert(k < 256 && x >> 8 == c >> 8) by (bit_vector)
                requires
                    k == x & 0xFF,
                    x == c ^ (b as u32),
            ;
            proof {
                lemma_crc_table_step(x);
                let next = before + part@.take(i + 1);
                assert(next.drop_last() =~= before + part@.take(i as int));
                assert(next.last() == b);
            }
            c = table[k as usize] ^ (c >> 8);
            i += 1;
        }
        proof {
            assert(part@.take(i as int) =~= part@);
            assert(parts@.take(p + 1).drop_last() =~= parts@.take(p as int));
        }
        p += 1;
    }
    proof {
        assert(parts@.take(p as int) =~= parts@);
    }
    !c
}

/// The modulus of Adler-32.
pub const ADLER_MOD: u32 = 65521;

/// How many bytes may be summed between two reductions without leaving 32 bits.
const ADLER_RUN: usize = 5552;

/// The low sum of Adler-32: one plus the sum of the bytes.
pub open spec fn adler_low(s: Seq<u8>) -> int
    decreases s.len(),
{
    if s.len() == 0 {
        1
    } else {
        (adler_low(s.drop_last()) + s.last()) % (ADLER_MOD as int)
    }
}

/// The high sum of Adler-32: the sum of the low sums after each byte.
pub open spec fn adler_high(s: Seq<u8>) -> int
    decreases s.len(),
{
    if s.len() == 0 {
        0
    } else {
        (adler_high(s.drop_last()) + adler_low(s)) % (ADLER_MOD as int)
    }
}

/// Adler-32: the high sum in the upper half-word, the low sum in the lower one.
pub open spec fn adler32_of(s: Seq<u8>) -> u32 {
    (adler_high(s) * 65536 + adler_low(s)) as u32
}

proof fn lemma_adler_range(s: Seq<u8>)
    ensures
        0 <= adler_low(s) < ADLER_MOD,
        0 <= adler_high(s) < ADLER_MOD,
    decreases s.len(),
{
    if s.len() > 0 {
        lemma_adler_range(s.drop_last());
    }
}

/// What the unreduced high sum cannot exceed after `n` bytes from reduced sums.
spec fn adler_bound(n: int) -> int {
    65520 * (n + 1) + 255 * (n * (n + 1) / 2)
}

proof fn lemma_adler_bound(n: int)
    requires
        0 <= n < ADLER_RUN,
    ensures
        adler_bound(n + 1) == adler_bound(n) + 65520 + 255 * (n + 1),
        adler_bound(n + 1) <= u32::MAX,
{
    assert((n + 1) * (n + 2) == n * (n + 1) + 2 * (n + 1)) by (nonlinear_arith);
    assert((n + 1) * (n + 2) <= 5552 * 5553) by (nonlinear_arith)
        requires
            0 <= n < 5552,
    ;
    assert(n * (n + 1) >= 0) by (nonlinear_arith)
        requires
            0 <= n,
    ;
    assert((n + 1) * (n + 2) / 2 == n * (n + 1) / 2 + (n + 1));
}

/// Adler-32 of `data`.
pub fn adler32(data: &[u8]) -> (r: u32)
    ensures
        r == adler32_of(data@),
{
    let mut a: u32 = 1;
    let mut b: u32 = 0;
    let mut i: usize = 0;
    proof {
        assert(data@.take(0) =~= Seq::<u8>::empty());
    }
    while i < data.len()
        invariant
            i <= data@.len(),
            a == adler_low(data@.take(i as int)),
            b == adler_high(data@.take(i as int)),
        decreases data@.len() - i,
    {
        let end: usize = if data.len() - i > ADLER_RUN {
            i + ADLER_RUN
        } else {
            data.len()
        };
        let start: usize = i;
        proof {
            lemma_adler_range(data@.take(i as int));
        }
        while i < end
            invariant
                start <= i <= end <= data@.len(),
                end - start <= ADLER_RUN,
                a % ADLER_MOD == adler_low(data@.take(i as int)),
                b % ADLER_MOD == adler_high(data@.take(i as int)),
                a <= 65520 + 255 * (i - start),
                b <= adler_bound(i - start),
            decreases end - i,
        {
            let x: u8 = data[i];
            let ghost n = i - start;
            proof {
                let s = data@.take(i + 1);
                assert(s.drop_last() =~= data@.take(i as int));
                assert(s.last() == x);
                lemma_adler_bound(n);
            }
            let ghost a0 = a as int;
            let ghost b0 = b as int;
            a = a + x as u32;
            b = b + a;
            proof {
                let m = ADLER_MOD as int;
                vstd::arithmetic::div_mod::lemma_add_mod_noop(a0, x as int, m);
                vstd::arithmetic::div_mod::lemma_small_mod(x as nat, m as nat);
                vstd::arithmetic::div_mod::lemma_add_mod_noop(b0, a as int, m);
                vstd::arithmetic::div_mod::lemma_add_mod_noop(
                    adler_high(data@.take(i as int)),
                    adler_low(data@.take(i + 1)),
                    m,
                );
                vstd::arithmetic::div_mod::lemma_mod_twice(b0, m);
                vstd::arithmetic::div_mod::lemma_mod_twice(a as int, m);
                vstd::arithmetic::div_mod::lemma_add_mod_noop(
                    adler_low(data@.take(i as int)),
                    x as int,
                    m,
                );
                vstd::arithmetic::div_mod::lemma_mod_twice(a0, m);
            }
            i += 1;
        }
        a = a % ADLER_MOD;
        b = b % ADLER_MOD;
    }
    proof {
        assert(data@.take(i as int) =~= data@);
        lemma_adler_range(data@);
    }
    assert((b << 16) | a == b * 65536 + a) by (bit_vector)
        requires
            a < 65521,
            b < 65521,
    ;
    (b << 16) | a
}

} // verus!
