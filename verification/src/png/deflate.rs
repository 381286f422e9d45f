//! Deflate with one block of fixed Huffman codes and a greedy search for repeats.
//!
//! The search remembers, for every hash of three bytes, the last position with that hash; it
//! looks no further than that one candidate.

use super::bits::{byte_bits, lsb_bits, lsb_value, msb_bits, msb_value, packed, BitWriter};
use super::bits::{
    lemma_lsb_bits_len, lemma_lsb_value_of_bits, lemma_msb_bits_len, lemma_msb_value_of_bits,
    lemma_packed_len, lemma_unpack,
};
use vstd::arithmetic::power2::{lemma2_to64, pow2};
use vstd::prelude::*;

verus! {

/// How far back a repeat may start.
pub const WINDOW: usize = 32768;

/// The longest repeat that one code can stand for.
pub const MAX_MATCH: usize = 258;

/// The shortest length of each length code.
pub const LEN_BASE: [u16; 29] = [
    3, 4, 5, 6, 7, 8, 9, 10, 11, 13, 15, 17, 19, 23, 27, 31, 35, 43, 51, 59, 67, 83, 99, 115, 131,
    163, 195, 227, 258,
];

/// How many extra bits follow each length code.
pub const LEN_EXTRA: [u8; 29] = [
    0, 0, 0, 0, 0, 0, 0, 0, 1, 1, 1, 1, 2, 2, 2, 2, 3, 3, 3, 3, 4, 4, 4, 4, 5, 5, 5, 5, 0,
];

/// The shortest distance of each distance code.
pub const DIST_BASE: [u16; 30] = [
    1, 2, 3, 4, 5, 7, 9, 13, 17, 25, 33, 49, 65, 97, 129, 193, 257, 385, 513, 769, 1025, 1537,
    2049, 3073, 4097, 6145, 8193, 12289, 16385, 24577,
];

/// How many extra bits follow each distance code.
pub const DIST_EXTRA: [u8; 30] = [
    0, 0, 0, 0, 1, 1, 2, 2, 3, 3, 4, 4, 5, 5, 6, 6, 7, 7, 8, 8, 9, 9, 10, 10, 11, 11, 12, 12, 13,
    13,
];

/// The last of the first `n` entries that does not exceed `x`, or -1.
pub open spec fn last_at_most(table: Seq<u16>, x: int, n: int) -> int
    decreases n,
{
    if n <= 0 {
        -1
    } else if table[n - 1] <= x {
        n - 1
    } else {
        last_at_most(table, x, n - 1)
    }
}

/// The length code of a repeat of `len` bytes.
pub open spec fn len_code(len: int) -> int {
    last_at_most(LEN_BASE@, len, 29)
}

/// The distance code of a repeat `dist` bytes back.
pub open spec fn dist_code(dist: int) -> int {
    last_at_most(DIST_BASE@, dist, 30)
}

/// The fixed Huffman code of a literal (below 256), the end of the block (256) or a length code.
pub open spec fn symbol_bits(sym: int) -> Seq<bool> {
    if sym <= 143 {
        msb_bits(0x30 + sym, 8)
    } else if sym <= 255 {
        msb_bits(0x190 + (sym - 144), 9)
    } else if sym <= 279 {
        msb_bits(sym - 256, 7)
    } else {
        msb_bits(0xC0 + (sym - 280), 8)
    }
}

/// The bits of a repeat: length code, its extra bits, distance code, its extra bits.
pub open spec fn repeat_bits(len: int, dist: int) -> Seq<bool> {
    let l = len_code(len);
    let d = dist_code(dist);
    symbol_bits(257 + l) + lsb_bits(len - LEN_BASE@[l], LEN_EXTRA@[l] as nat) + msb_bits(d, 5)
        + lsb_bits(dist - DIST_BASE@[d], DIST_EXTRA@[d] as nat)
}

/// The hash bucket of three bytes.
pub open spec fn hash3(a: u8, b: u8, c: u8) -> u32 {
    ((a as u32) | ((b as u32) << 8) | ((c as u32) << 16)).wrapping_mul(0x9E37_79B1) >> 17
}

/// The hash bucket at position `i`.
pub open spec fn hash_at(data: Seq<u8>, i: int) -> u32 {
    hash3(data[i], data[i + 1], data[i + 2])
}

/// The last position before `end` with three bytes of bucket `h`, or -1.
pub open spec fn last_seen(data: Seq<u8>, end: int, h: u32) -> int
    decreases end,
{
    if end <= 0 {
        -1
    } else if end - 1 + 3 <= data.len() && hash_at(data, end - 1) == h {
        end - 1
    } else {
        last_seen(data, end - 1, h)
    }
}

/// How far the bytes at `c` and at `i` agree, from `l` on and up to `max`.
pub open spec fn agreement(data: Seq<u8>, c: int, i: int, l: int, max: int) -> int
    decreases max - l,
{
    if l < max && data[c + l] == data[i + l] {
        agreement(data, c, i, l + 1, max)
    } else {
        l
    }
}

/// The longest repeat that may start at `i`.
pub open spec fn longest(data: Seq<u8>, i: int) -> int {
    if data.len() - i < MAX_MATCH {
        data.len() - i
    } else {
        MAX_MATCH as int
    }
}

/// The repeat taken at position `i`, as length and distance: the candidate is the last position
/// with the same bucket, if it lies in the window and agrees in at least three bytes. Positions
/// are remembered in 32 bits, so one from 2^32 - 1 on is never a candidate.
pub open spec fn repeat_at(data: Seq<u8>, i: int) -> Option<(int, int)> {
    if i + 3 > data.len() {
        None
    } else {
        let c = last_seen(data, i, hash_at(data, i));
        if 0 <= c < 0xFFFF_FFFF && i - c <= WINDOW {
            let l = agreement(data, c, i, 0, longest(data, i));
            if l >= 3 {
                Some((l, i - c))
            } else {
                None
            }
        } else {
            None
        }
    }
}

/// The bits for the bytes from `i` on, with the end of the block.
pub open spec fn coded_from(data: Seq<u8>, i: int) -> Seq<bool>
    decreases data.len() - i,
{
    if i >= data.len() {
        symbol_bits(256)
    } else {
        match repeat_at(data, i) {
            Some((len, dist)) => if 0 < len <= data.len() - i {
                repeat_bits(len, dist) + coded_from(data, i + len)
            } else {
                Seq::empty()
            },
            None => symbol_bits(data[i] as int) + coded_from(data, i + 1),
        }
    }
}

/// The whole stream as bits: a final block of fixed Huffman codes.
pub open spec fn deflate_bits(data: Seq<u8>) -> Seq<bool> {
    seq![true, true, false] + coded_from(data, 0)
}

/// The whole stream as bytes.
pub open spec fn deflated(data: Seq<u8>) -> Seq<u8> {
    packed(deflate_bits(data))
}

/// Decoding: the symbol at the head of `bits` and how many bits it takes.
pub open spec fn read_symbol(bits: Seq<bool>) -> Option<(int, int)> {
    let v7 = msb_value(bits.take(7));
    let v8 = msb_value(bits.take(8));
    let v9 = msb_value(bits.take(9));
    if bits.len() >= 7 && v7 <= 0x17 {
        Some((256 + v7, 7))
    } else if bits.len() >= 8 && 0x30 <= v8 <= 0xBF {
        Some((v8 - 0x30, 8))
    } else if bits.len() >= 8 && 0xC0 <= v8 <= 0xC7 {
        Some((280 + (v8 - 0xC0), 8))
    } else if bits.len() >= 9 && v9 >= 0x190 {
        Some((144 + (v9 - 0x190), 9))
    } else {
        None
    }
}

/// Decoding: what follows length code `l`, as length, distance and the bits taken.
pub open spec fn read_repeat(bits: Seq<bool>, l: int) -> Option<(int, int, int)> {
    if l > 28 {
        None
    } else {
        let le = LEN_EXTRA@[l] as int;
        if bits.len() < le + 5 {
            None
        } else {
            let d = msb_value(bits.subrange(le, le + 5));
            if d > 29 {
                None
            } else {
                let de = DIST_EXTRA@[d] as int;
                if bits.len() < le + 5 + de {
                    None
                } else {
                    Some(
                        (
                            LEN_BASE@[l] + lsb_value(bits.take(le)),
                            DIST_BASE@[d] + lsb_value(bits.subrange(le + 5, le + 5 + de)),
                            le + 5 + de,
                        ),
                    )
                }
            }
        }
    }
}

/// `len` bytes appended to `out`, each the one `dist` back.
pub open spec fn repeated(out: Seq<u8>, len: int, dist: int) -> Seq<u8>
    decreases len,
{
    if len <= 0 {
        out
    } else {
        repeated(out.push(out[out.len() - dist]), len - 1, dist)
    }
}

/// Decoding one block after its header, appending to `out`: what came out and the bits left over.
pub open spec fn inflate_block(bits: Seq<bool>, out: Seq<u8>) -> Option<(Seq<u8>, Seq<bool>)>
    decreases bits.len(),
{
    match read_symbol(bits) {
        None => None,
        Some((sym, used)) => {
            let rest = bits.skip(used);
            if sym < 256 {
                inflate_block(rest, out.push(sym as u8))
            } else if sym == 256 {
                Some((out, rest))
            } else {
                match read_repeat(rest, sym - 257) {
                    None => None,
                    Some((len, dist, more)) => if dist > out.len() || more < 0 {
                        None
                    } else {
                        inflate_block(rest.skip(more), repeated(out, len, dist))
                    },
                }
            }
        },
    }
}

/// Decoding blocks of fixed Huffman codes up to the final one.
pub open spec fn inflate_bits(bits: Seq<bool>, out: Seq<u8>) -> Option<Seq<u8>>
    decreases bits.len(),
{
    if bits.len() < 3 || !bits[1] || bits[2] {
        None
    } else {
        match inflate_block(bits.skip(3), out) {
            None => None,
            Some((next, rest)) => if bits[0] {
                Some(next)
            } else if rest.len() < bits.len() {
                inflate_bits(rest, next)
            } else {
                None
            },
        }
    }
}

/// Decoding a deflate stream of fixed Huffman blocks.
pub open spec fn inflated(bytes: Seq<u8>) -> Option<Seq<u8>> {
    inflate_bits(byte_bits(bytes), Seq::empty())
}

proof fn lemma_msb_prefix(v: int, n: nat, k: nat)
    requires
        k <= n,
        0 <= v,
    ensures
        msb_bits(v, n).take((n - k) as int) == msb_bits(v / (pow2(k) as int), (n - k) as nat),
    decreases k,
{
    lemma_msb_bits_len(v, n);
    lemma2_to64();
    if k == 0 {
        assert(msb_bits(v, n).take(n as int) =~= msb_bits(v, n));
    } else {
        lemma_msb_prefix(v / 2, (n - 1) as nat, (k - 1) as nat);
        lemma_msb_bits_len(v / 2, (n - 1) as nat);
        vstd::arithmetic::power2::lemma_pow2_unfold(k);
        vstd::arithmetic::power2::lemma_pow2_pos((k - 1) as nat);
        vstd::arithmetic::div_mod::lemma_div_denominator(v, 2, pow2((k - 1) as nat) as int);
        assert(msb_bits(v, n).take((n - k) as int) =~= msb_bits(v / 2, (n - 1) as nat).take(
            (n - k) as int,
        ));
    }
}

/// Every symbol reads back as itself, whatever follows it.
proof fn lemma_read_symbol(sym: int, rest: Seq<bool>)
    requires
        0 <= sym <= 285,
    ensures
        read_symbol(symbol_bits(sym) + rest) == Some((sym, symbol_bits(sym).len() as int)),
        (symbol_bits(sym) + rest).skip(symbol_bits(sym).len() as int) == rest,
{
    lemma2_to64();
    let b = symbol_bits(sym);
    let all = b + rest;
    let (code, n): (int, nat) = if sym <= 143 {
        (0x30 + sym, 8)
    } else if sym <= 255 {
        (0x190 + (sym - 144), 9)
    } else if sym <= 279 {
        (sym - 256, 7)
    } else {
        (0xC0 + (sym - 280), 8)
    };
    assert(b == msb_bits(code, n));
    lemma_msb_bits_len(code, n);
    lemma_msb_value_of_bits(code, n);
    assert(all.take(n as int) =~= b);
    assert(all.skip(n as int) =~= rest);
    if n >= 8 {
        lemma_msb_prefix(code, n, (n - 7) as nat);
        assert(all.take(7) =~= b.take(7));
        lemma_msb_value_of_bits(code / (pow2((n - 7) as nat) as int), 7);
    }
    if n == 9 {
        lemma_msb_prefix(code, 9, 1);
        assert(all.take(8) =~= b.take(8));
        lemma_msb_value_of_bits(code / 2, 8);
    }
}

pub proof fn lemma_len_code(len: int)
    requires
        3 <= len <= 258,
    ensures
        0 <= len_code(len) <= 28,
        LEN_BASE@[len_code(len)] <= len < LEN_BASE@[len_code(len)] + pow2(
            LEN_EXTRA@[len_code(len)] as nat,
        ),
        LEN_EXTRA@[len_code(len)] <= 5,
{
    lemma2_to64();
    reveal_with_fuel(last_at_most, 30);
}

pub proof fn lemma_dist_code(dist: int)
    requires
        1 <= dist <= 32768,
    ensures
        0 <= dist_code(dist) <= 29,
        DIST_BASE@[dist_code(dist)] <= dist < DIST_BASE@[dist_code(dist)] + pow2(
            DIST_EXTRA@[dist_code(dist)] as nat,
        ),
        DIST_EXTRA@[dist_code(dist)] <= 13,
{
    lemma2_to64();
    reveal_with_fuel(last_at_most, 31);
}

/// A repeat reads back as itself, whatever follows it.
proof fn lemma_read_repeat(len: int, dist: int, rest: Seq<bool>)
    requires
        3 <= len <= 258,
        1 <= dist <= 32768,
    ensures
        ({
            let all = repeat_bits(len, dist) + rest;
            let sym = 257 + len_code(len);
            let used = symbol_bits(sym).len() as int;
            &&& 257 <= sym <= 285
            &&& read_symbol(all) == Some((sym, used))
            &&& read_repeat(all.skip(used), sym - 257) == Some(
                (len, dist, repeat_bits(len, dist).len() - used),
            )
            &&& all.skip(used).skip(repeat_bits(len, dist).len() - used) == rest
            &&& repeat_bits(len, dist).len() >= used
        }),
{
    lemma_len_code(len);
    lemma_dist_code(dist);
    let l = len_code(len);
    let d = dist_code(dist);
    let le = LEN_EXTRA@[l] as nat;
    let de = DIST_EXTRA@[d] as nat;
    let b1 = symbol_bits(257 + l);
    let b2 = lsb_bits(len - LEN_BASE@[l], le);
    let b3 = msb_bits(d, 5);
    let b4 = lsb_bits(dist - DIST_BASE@[d], de);
    let all = repeat_bits(len, dist) + rest;
    assert(all =~= b1 + (b2 + b3 + b4 + rest));
    lemma_read_symbol(257 + l, b2 + b3 + b4 + rest);
    lemma_lsb_bits_len(len - LEN_BASE@[l], le);
    lemma_lsb_bits_len(dist - DIST_BASE@[d], de);
    lemma_msb_bits_len(d, 5);
    lemma2_to64();
    lemma_msb_value_of_bits(d, 5);
    lemma_lsb_value_of_bits(len - LEN_BASE@[l], le);
    lemma_lsb_value_of_bits(dist - DIST_BASE@[d], de);
    let tail = all.skip(b1.len() as int);
    assert(tail == b2 + b3 + b4 + rest);
    assert(tail.take(le as int) =~= b2);
    assert(tail.subrange(le as int, (le + 5) as int) =~= b3);
    assert(tail.subrange((le + 5) as int, (le + 5 + de) as int) =~= b4);
    assert(tail.skip((repeat_bits(len, dist).len() - b1.len()) as int) =~= rest);
}

proof fn lemma_agreement(data: Seq<u8>, c: int, i: int, l: int, max: int)
    requires
        0 <= l <= max,
    ensures
        l <= agreement(data, c, i, l, max) <= max,
        forall|k: int| l <= k < agreement(data, c, i, l, max) ==> data[c + k] == #[trigger] data[i + k],
    decreases max - l,
{
    if l < max && data[c + l] == data[i + l] {
        lemma_agreement(data, c, i, l + 1, max);
    }
}

proof fn lemma_last_seen(data: Seq<u8>, end: int, h: u32)
    ensures
        -1 <= last_seen(data, end, h) < end || (end <= 0 && last_seen(data, end, h) == -1),
    decreases end,
{
    if end > 0 {
        lemma_last_seen(data, end - 1, h);
    }
}

/// A repeat taken at `i` starts before `i`, stays inside the data and copies what is there.
pub proof fn lemma_repeat_at(data: Seq<u8>, i: int)
    requires
        0 <= i < data.len(),
        repeat_at(data, i) is Some,
    ensures
        ({
            let (len, dist) = repeat_at(data, i)->Some_0;
            &&& 3 <= len <= 258
            &&& i + len <= data.len()
            &&& 1 <= dist <= 32768
            &&& dist <= i
            &&& forall|k: int| 0 <= k < len ==> data[i - dist + k] == #[trigger] data[i + k]
        }),
{
    let c = last_seen(data, i, hash_at(data, i));
    lemma_last_seen(data, i, hash_at(data, i));
    lemma_agreement(data, c, i, 0, longest(data, i));
}

proof fn lemma_repeated(data: Seq<u8>, i: int, len: int, dist: int)
    requires
        0 <= len,
        0 <= i,
        i + len <= data.len(),
        1 <= dist <= i,
        forall|k: int| 0 <= k < len ==> data[i - dist + k] == #[trigger] data[i + k],
    ensures
        repeated(data.take(i), len, dist) == data.take(i + len),
    decreases len,
{
    if len > 0 {
        let out = data.take(i);
        assert(data[i - dist + 0] == data[i + 0]);
        assert(out.push(out[out.len() - dist]) =~= data.take(i + 1));
        assert forall|k: int| 0 <= k < len - 1 implies data[(i + 1) - dist + k] == #[trigger] data[(i
            + 1) + k] by {
            assert(data[i - dist + (k + 1)] == data[i + (k + 1)]);
        }
        lemma_repeated(data, i + 1, len - 1, dist);
    }
}

/// Decoding from position `i` on restores the rest of the data.
proof fn lemma_inflate_block(data: Seq<u8>, i: int, rest: Seq<bool>)
    requires
        0 <= i <= data.len(),
    ensures
        inflate_block(coded_from(data, i) + rest, data.take(i)) == Some((data, rest)),
    decreases data.len() - i,
{
    let bits = coded_from(data, i) + rest;
    let out = data.take(i);
    if i >= data.len() {
        lemma_read_symbol(256, rest);
        assert(out =~= data);
    } else {
        match repeat_at(data, i) {
            Some((len, dist)) => {
                lemma_repeat_at(data, i);
                let more = coded_from(data, i + len) + rest;
                assert(bits =~= repeat_bits(len, dist) + more);
                lemma_read_repeat(len, dist, more);
                lemma_repeated(data, i, len, dist);
                lemma_inflate_block(data, i + len, rest);
            },
            None => {
                let more = coded_from(data, i + 1) + rest;
                assert(bits =~= symbol_bits(data[i] as int) + more);
                lemma_read_symbol(data[i] as int, more);
                assert(out.push(data[i]) =~= data.take(i + 1));
                lemma_inflate_block(data, i + 1, rest);
            },
        }
    }
}

/// Decoding a deflate stream gives back the data that it was made from.
pub proof fn lemma_inflate_deflated(data: Seq<u8>)
    ensures
        inflated(deflated(data)) == Some(data),
{
    let b = deflate_bits(data);
    let all = byte_bits(deflated(data));
    lemma_unpack(b);
    let pad = all.skip(b.len() as int);
    assert(all =~= b + pad);
    assert(all.skip(3) =~= coded_from(data, 0) + pad);
    assert(data.take(0) =~= Seq::<u8>::empty());
    lemma_inflate_block(data, 0, pad);
    assert(all[0] == b[0] && all[1] == b[1] && all[2] == b[2]);
}

proof fn lemma_symbol_len(sym: int)
    ensures
        symbol_bits(sym).len() <= 9,
        256 <= sym <= 279 ==> symbol_bits(sym).len() == 7,
        280 <= sym ==> symbol_bits(sym).len() == 8,
{
    lemma_msb_bits_len(0x30 + sym, 8);
    lemma_msb_bits_len(0x190 + (sym - 144), 9);
    lemma_msb_bits_len(sym - 256, 7);
    lemma_msb_bits_len(0xC0 + (sym - 280), 8);
}

/// A repeat takes at most nine bits for each byte that it stands for.
proof fn lemma_repeat_len(len: int, dist: int)
    requires
        3 <= len <= 258,
        1 <= dist <= 32768,
    ensures
        repeat_bits(len, dist).len() <= 9 * len,
{
    let l = len_code(len);
    let d = dist_code(dist);
    lemma_len_code(len);
    lemma_dist_code(dist);
    lemma_symbol_len(257 + l);
    lemma_lsb_bits_len(len - LEN_BASE@[l], LEN_EXTRA@[l] as nat);
    lemma_msb_bits_len(d, 5);
    lemma_lsb_bits_len(dist - DIST_BASE@[d], DIST_EXTRA@[d] as nat);
    if len == 3 {
        reveal_with_fuel(last_at_most, 30);
        assert(l == 0);
    }
}

proof fn lemma_coded_len(data: Seq<u8>, i: int)
    requires
        0 <= i <= data.len(),
    ensures
        coded_from(data, i).len() <= 9 * (data.len() - i) + 7,
    decreases data.len() - i,
{
    lemma_symbol_len(256);
    if i < data.len() {
        match repeat_at(data, i) {
            Some((len, dist)) => {
                lemma_repeat_at(data, i);
                lemma_repeat_len(len, dist);
                lemma_coded_len(data, i + len);
            },
            None => {
                lemma_symbol_len(data[i] as int);
                lemma_coded_len(data, i + 1);
            },
        }
    }
}

/// A deflate stream is at most an eighth longer than the data that it was made from, and then
/// about two bytes.
pub proof fn deflated_is_an_eighth_longer_at_most(data: Seq<u8>)
    ensures
        8 * deflated(data).len() <= 9 * data.len() + 17,
{
    lemma_coded_len(data, 0);
    lemma_packed_len(deflate_bits(data));
}

/// Writes the fixed Huffman code of `sym`.
pub fn put_lit_len(bw: &mut BitWriter, sym: u32)
    requires
        old(bw).wf(),
        sym <= 285,
    ensures
        final(bw).wf(),
        final(bw)@ == old(bw)@ + symbol_bits(sym as int),
{
    proof {
        lemma2_to64();
    }
    if sym <= 143 {
        bw.put_code(0x30 + sym, 8);
    } else if sym <= 255 {
        bw.put_code(0x190 + (sym - 144), 9);
    } else if sym <= 279 {
        bw.put_code(sym - 256, 7);
    } else {
        bw.put_code(0xC0 + (sym - 280), 8);
    }
}

/// The last entry of `table` that does not exceed `x`.
fn code_of(table: &[u16], x: usize) -> (r: usize)
    requires
        last_at_most(table@, x as int, table@.len() as int) >= 0,
    ensures
        r == last_at_most(table@, x as int, table@.len() as int),
        r < table@.len(),
{
    let mut n: usize = table.len();
    while n > 0
        invariant
            n <= table@.len(),
            last_at_most(table@, x as int, table@.len() as int) == last_at_most(
                table@,
                x as int,
                n as int,
            ),
            last_at_most(table@, x as int, table@.len() as int) >= 0,
        decreases n,
    {
        if table[n - 1] as usize <= x {
            return n - 1;
        }
        n = n - 1;
    }
    proof {
        assert(false);
    }
    0
}

/// Writes the code of a repeat.
fn put_repeat(bw: &mut BitWriter, len: usize, dist: usize)
    requires
        old(bw).wf(),
        3 <= len <= 258,
        1 <= dist <= 32768,
    ensures
        final(bw).wf(),
        final(bw)@ == old(bw)@ + repeat_bits(len as int, dist as int),
{
    proof {
        lemma_len_code(len as int);
        lemma_dist_code(dist as int);
        lemma2_to64();
    }
    let li: usize = code_of(&LEN_BASE, len);
    put_lit_len(bw, 257 + li as u32);
    bw.put((len - LEN_BASE[li] as usize) as u32, LEN_EXTRA[li] as u32);
    let di: usize = code_of(&DIST_BASE, dist);
    bw.put_code(di as u32, 5);
    bw.put((dist - DIST_BASE[di] as usize) as u32, DIST_EXTRA[di] as u32);
    assert(bw@ =~= old(bw)@ + repeat_bits(len as int, dist as int));
}

/// The hash bucket at position `i`.
fn bucket(data: &[u8], i: usize) -> (h: usize)
    requires
        i + 3 <= data@.len(),
    ensures
        h == hash_at(data@, i as int),
        h < 32768,
{
    let v: u32 = (data[i] as u32) | ((data[i + 1] as u32) << 8) | ((data[i + 2] as u32) << 16);
    let x: u32 = v.wrapping_mul(0x9E37_79B1);
    assert(x >> 17 < 32768) by (bit_vector);
    (x >> 17) as usize
}

/// How a position is remembered: its low 32 bits, all ones where there is none.
spec fn slot(p: int) -> u32 {
    if p < 0 {
        0xFFFF_FFFF
    } else {
        (p % 0x1_0000_0000) as u32
    }
}

/// The table knows, for every bucket, the last position before `end`.
spec fn remembers(head: Seq<u32>, data: Seq<u8>, end: int) -> bool {
    &&& head.len() == 32768
    &&& forall|h: u32| h < 32768 ==> #[trigger] head[h as int] == slot(last_seen(data, end, h))
}

/// Remembers position `i`, if three bytes start there.
fn remember(head: &mut Vec<u32>, data: &[u8], i: usize)
    requires
        remembers(old(head)@, data@, i as int),
    ensures
        remembers(final(head)@, data@, i + 1),
{
    if data.len() >= 3 && i <= data.len() - 3 {
        let h: usize = bucket(data, i);
        let low: u64 = i as u64 & 0xFFFF_FFFF;
        let wide: u64 = i as u64;
        assert(low == wide % 0x1_0000_0000 && low <= 0xFFFF_FFFF) by (bit_vector)
            requires
                low == wide & 0xFFFF_FFFF,
        ;
        head.set(h, low as u32);
    }
}

/// How many bytes at `c` and at `i` agree, up to `max`.
fn match_length(data: &[u8], c: usize, i: usize, max: usize) -> (l: usize)
    requires
        c <= i,
        i + max <= data@.len(),
    ensures
        l == agreement(data@, c as int, i as int, 0, max as int),
        l <= max,
{
    let size: usize = data.len();
    let mut l: usize = 0;
    while l < max && data[c + l] == data[i + l]
        invariant
            l <= max,
            c <= i,
            i + max <= size,
            size == data@.len(),
            agreement(data@, c as int, i as int, 0, max as int) == agreement(
                data@,
                c as int,
                i as int,
                l as int,
                max as int,
            ),
        decreases max - l,
    {
        l += 1;
    }
    l
}

/// The repeat at position `i`, as length and distance.
fn find_repeat(head: &Vec<u32>, data: &[u8], i: usize) -> (r: Option<(usize, usize)>)
    requires
        i < data@.len(),
        remembers(head@, data@, i as int),
    ensures
        repeat_at(data@, i as int) matches Some((l, d)) ==> r == Some((l as usize, d as usize)),
        repeat_at(data@, i as int) is None ==> r is None,
{
    if data.len() - i < 3 {
        return None;
    }
    let h: usize = bucket(data, i);
    let cand: u32 = head[h];
    proof {
        assert(head@[(h as u32) as int] == slot(last_seen(data@, i as int, h as u32)));
        lemma_last_seen(data@, i as int, h as u32);
    }
    if cand == 0xFFFF_FFFF {
        return None;
    }
    let c: usize = cand as usize;
    let dist: usize = i - c;
    if dist > WINDOW {
        return None;
    }
    let max: usize = if data.len() - i < MAX_MATCH {
        data.len() - i
    } else {
        MAX_MATCH
    };
    let l: usize = match_length(data, c, i, max);
    if l >= 3 {
        Some((l, dist))
    } else {
        None
    }
}

/// Compresses `data` into one final block of fixed Huffman codes.
pub fn deflate_fixed(data: &[u8]) -> (out: Vec<u8>)
    ensures
        out@ == deflated(data@),
{
    let mut bw = BitWriter::new();
    proof {
        lemma2_to64();
    }
    bw.put(1, 1);
    bw.put(1, 2);
    proof {
        reveal_with_fuel(lsb_bits, 3);
        assert(bw@ =~= seq![true, true, false]);
    }
    let mut head: Vec<u32> = vec![0xFFFF_FFFFu32; 32768];
    let mut i: usize = 0;
    while i < data.len()
        invariant
            i <= data@.len(),
            bw.wf(),
            remembers(head@, data@, i as int),
            bw@ + coded_from(data@, i as int) == deflate_bits(data@),
        decreases data@.len() - i,
    {
        let found = find_repeat(&head, data, i);
        let ghost before = bw@;
        match found {
            Some((len, dist)) => {
                proof {
                    lemma_repeat_at(data@, i as int);
                }
                put_repeat(&mut bw, len, dist);
                proof {
                    let more = coded_from(data@, i + len);
                    assert(bw@ + more =~= before + (repeat_bits(len as int, dist as int) + more));
                }
                let end: usize = i + len;
                while i < end
                    invariant
                        i <= end <= data@.len(),
                        remembers(head@, data@, i as int),
                    decreases end - i,
                {
                    remember(&mut head, data, i);
                    i += 1;
                }
            },
            None => {
                put_lit_len(&mut bw, data[i] as u32);
                proof {
                    let more = coded_from(data@, i + 1);
                    assert(bw@ + more =~= before + (symbol_bits(data@[i as int] as int) + more));
                }
                remember(&mut head, data, i);
                i += 1;
            },
        }
    }
    put_lit_len(&mut bw, 256);
    bw.finish()
}

} // verus!
