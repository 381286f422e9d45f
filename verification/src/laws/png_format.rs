//! PNG as its standard has it: prediction, filters, the order of bits, the fixed codes, and where
//! everything stands in the file.

use crate::png::bits::{
    byte_bits, lemma_byte_bits_len, lemma_lsb_bits_len, lemma_msb_bits_len, lsb_bits, msb_bits,
};
use crate::png::checksum::{adler32_of, adler_high, adler_low, crc32_of};
use crate::png::deflate::{
    coded_from, deflate_bits, deflated, lemma_dist_code, lemma_len_code, lemma_repeat_at, len_code,
    dist_code, repeat_at, repeat_bits, repeated, symbol_bits, DIST_BASE, DIST_EXTRA, LEN_BASE,
    LEN_EXTRA,
};
use crate::png::encode::{be32, chunk, header, png_file, zlib};
use crate::png::filter::{
    filtered_row, lemma_stored_rows_at, lemma_stored_rows_len, paeth_of, row_cost, sample,
    stored_row, stored_rows,
};
use vstd::arithmetic::power2::{lemma2_to64, lemma_pow2_pos, lemma_pow2_unfold, pow2};
use vstd::prelude::*;

verus! {

/// How far apart two numbers are.
pub open spec fn gap(a: int, b: int) -> int {
    if a < b {
        b - a
    } else {
        a - b
    }
}

/// Whether `r` is what the standard predicts from the bytes to the left, above, and above to the
/// left: the one of them that is nearest to `left + up - corner`, the earlier of those that are
/// equally near.
pub open spec fn nearest(r: int, left: int, up: int, corner: int) -> bool {
    let p = left + up - corner;
    &&& r == left || r == up || r == corner
    &&& gap(p, r) <= gap(p, left) && gap(p, r) <= gap(p, up) && gap(p, r) <= gap(p, corner)
    &&& gap(p, left) == gap(p, r) ==> r == left
    &&& gap(p, up) == gap(p, r) && gap(p, left) != gap(p, r) ==> r == up
}

/// The prediction is one of its three bytes, and none of them is nearer to their sum and
/// difference; where the corner is nearer than both others, it is the corner.
pub proof fn prediction_is_the_nearest(a: u8, b: u8, c: u8)
    ensures
        nearest(paeth_of(a, b, c) as int, a as int, b as int, c as int),
        gap(a + b, 2 * c) < gap(b as int, c as int) && gap(a + b, 2 * c) < gap(a as int, c as int)
            ==> paeth_of(a, b, c) == c,
{
}

/// The byte at column `i` of row `y`, nothing outside.
pub open spec fn byte_at(rgb: Seq<u8>, stride: int, y: int, i: int) -> int {
    if 0 <= y && 0 <= i {
        rgb[y * stride + i] as int
    } else {
        0
    }
}

/// Whether `d` is the byte at column `i` of row `y` after a filter of this type: what is left of
/// it without its left neighbour (1), the one above (2), or the nearest of three (4). Neighbours to
/// the left are three bytes away.
pub open spec fn filtered_to(kind: u8, rgb: Seq<u8>, stride: int, y: int, i: int, d: u8) -> bool {
    let x = byte_at(rgb, stride, y, i);
    let left = byte_at(rgb, stride, y, i - 3);
    let up = byte_at(rgb, stride, y - 1, i);
    let corner = byte_at(rgb, stride, y - 1, i - 3);
    ||| kind == 0 && d == x
    ||| kind == 1 && (d + left) % 256 == x
    ||| kind == 2 && (d + up) % 256 == x
    ||| kind == 4 && exists|r: int| #[trigger] nearest(r, left, up, corner) && (d + r) % 256 == x
}

/// What a filtered row costs: the sum of its bytes, taken as numbers with a sign, without it.
pub open spec fn effort(row: Seq<u8>) -> int
    decreases row.len(),
{
    if row.len() == 0 {
        0
    } else {
        effort(row.drop_last()) + gap(
            row.last() as int,
            if row.last() <= 127 {
                0
            } else {
                256
            },
        )
    }
}

proof fn lemma_effort(row: Seq<u8>)
    ensures
        effort(row) == row_cost(row),
    decreases row.len(),
{
    if row.len() > 0 {
        lemma_effort(row.drop_last());
    }
}

proof fn lemma_wrapping(x: u8, p: u8)
    ensures
        (x.wrapping_sub(p) + p) % 256 == x,
{
}

proof fn lemma_filtered(kind: u8, rgb: Seq<u8>, stride: int, y: int, i: int)
    requires
        kind == 0 || kind == 1 || kind == 2 || kind == 4,
        0 <= y,
        0 <= i < stride,
    ensures
        filtered_to(kind, rgb, stride, y, i, filtered_row(kind, rgb, stride, y)[i]),
{
    let left = sample(rgb, stride, y, i - 3);
    let up = sample(rgb, stride, y - 1, i);
    let corner = sample(rgb, stride, y - 1, i - 3);
    prediction_is_the_nearest(left, up, corner);
    let x = sample(rgb, stride, y, i);
    let d = filtered_row(kind, rgb, stride, y)[i];
    lemma_wrapping(x, left);
    lemma_wrapping(x, up);
    lemma_wrapping(x, 0);
    lemma_wrapping(x, paeth_of(left, up, corner));
    assert(byte_at(rgb, stride, y, i) == x);
    assert(byte_at(rgb, stride, y, i - 3) == left);
    assert(byte_at(rgb, stride, y - 1, i) == up);
    assert(byte_at(rgb, stride, y - 1, i - 3) == corner);
    if kind == 4 {
        let r = paeth_of(left, up, corner);
        assert(d == x.wrapping_sub(r));
        assert(nearest(r as int, left as int, up as int, corner as int) && (d + r as int) % 256 == x);
    }
}

proof fn lemma_nearest_is_unique(r: int, s: int, left: int, up: int, corner: int)
    requires
        nearest(r, left, up, corner),
        nearest(s, left, up, corner),
    ensures
        r == s,
{
}

proof fn lemma_cancel(d: u8, e: u8, p: int)
    requires
        0 <= p <= 255,
        (d + p) % 256 == (e + p) % 256,
    ensures
        d == e,
{
}

/// Two bytes that a filter may leave of a byte are the same.
proof fn lemma_filtered_is_unique(kind: u8, rgb: Seq<u8>, stride: int, y: int, i: int, d: u8, e: u8)
    requires
        filtered_to(kind, rgb, stride, y, i, d),
        filtered_to(kind, rgb, stride, y, i, e),
    ensures
        d == e,
{
    let x = byte_at(rgb, stride, y, i);
    let left = byte_at(rgb, stride, y, i - 3);
    let up = byte_at(rgb, stride, y - 1, i);
    let corner = byte_at(rgb, stride, y - 1, i - 3);
    if kind == 1 {
        lemma_cancel(d, e, left);
    } else if kind == 2 {
        lemma_cancel(d, e, up);
    } else if kind == 4 {
        let r = choose|r: int| #[trigger] nearest(r, left, up, corner) && (d + r) % 256 == x;
        let s = choose|r: int| #[trigger] nearest(r, left, up, corner) && (e + r) % 256 == x;
        lemma_nearest_is_unique(r, s, left, up, corner);
        lemma_cancel(d, e, r);
    }
}

/// Every row of a picture starts with the type of its filter and goes on with what the filter
/// leaves of its bytes.
pub proof fn rows_are_filtered(rgb: Seq<u8>, w: int, h: int, y: int, i: int)
    requires
        0 <= w,
        rgb.len() == w * h * 3,
        0 <= y < h,
        0 <= i < 3 * w,
    ensures
        ({
            let raw = stored_rows(rgb, w * 3, h);
            let at = y * (3 * w + 1);
            &&& raw.len() == h * (3 * w + 1)
            &&& 0 <= at && at + 1 + i < raw.len()
            &&& raw[at] == 0 || raw[at] == 1 || raw[at] == 2 || raw[at] == 4
            &&& filtered_to(raw[at], rgb, w * 3, y, i, raw[at + 1 + i])
        }),
{
    lemma_stored_rows_len(rgb, w * 3, h);
    lemma_stored_rows_at(rgb, w * 3, h, y, 0);
    lemma_stored_rows_at(rgb, w * 3, h, y, i + 1);
    assert(w * 3 + 1 == 3 * w + 1);
    let kind = stored_row(rgb, w * 3, y)[0];
    lemma_filtered(kind, rgb, w * 3, y, i);
}

/// The filter of a row is the cheapest: no filter leaves a row of less effort, and of those that
/// leave equally little the first is taken.
pub proof fn the_cheapest_filter_is_taken(
    rgb: Seq<u8>,
    w: int,
    h: int,
    y: int,
    kind: u8,
    other: Seq<u8>,
)
    requires
        0 <= w,
        rgb.len() == w * h * 3,
        0 <= y < h,
        kind == 0 || kind == 1 || kind == 2 || kind == 4,
        other.len() == 3 * w,
        forall|i: int|
            0 <= i < 3 * w ==> filtered_to(kind, rgb, w * 3, y, i, #[trigger] other[i]),
    ensures
        ({
            let raw = stored_rows(rgb, w * 3, h);
            let at = y * (3 * w + 1);
            let row = raw.subrange(at + 1, at + 1 + 3 * w);
            &&& effort(row) <= effort(other)
            &&& kind < raw[at] ==> effort(row) < effort(other)
        }),
{
    let raw = stored_rows(rgb, w * 3, h);
    let at = y * (3 * w + 1);
    lemma_stored_rows_len(rgb, w * 3, h);
    lemma_stored_rows_at(rgb, w * 3, h, y, 0);
    lemma_stored_rows_at(rgb, w * 3, h, y, 3 * w);
    assert(w * 3 + 1 == 3 * w + 1);
    let row = raw.subrange(at + 1, at + 1 + 3 * w);
    let taken = raw[at];
    assert(row =~= filtered_row(taken, rgb, w * 3, y)) by {
        assert forall|i: int| 0 <= i < 3 * w implies row[i] == filtered_row(
            taken,
            rgb,
            w * 3,
            y,
        )[i] by {
            lemma_stored_rows_at(rgb, w * 3, h, y, i + 1);
            assert(row[i] == raw[at + (i + 1)]);
        }
    }
    assert(other =~= filtered_row(kind, rgb, w * 3, y)) by {
        assert forall|i: int| 0 <= i < 3 * w implies other[i] == filtered_row(
            kind,
            rgb,
            w * 3,
            y,
        )[i] by {
            lemma_filtered(kind, rgb, w * 3, y, i);
            lemma_filtered_is_unique(
                kind,
                rgb,
                w * 3,
                y,
                i,
                other[i],
                filtered_row(kind, rgb, w * 3, y)[i],
            );
        }
    }
    lemma_effort(row);
    lemma_effort(other);
}

proof fn lemma_halved(v: int, k: nat)
    requires
        0 <= v,
    ensures
        v / 2 / (pow2(k) as int) == v / (pow2(k + 1) as int),
{
    lemma_pow2_unfold(k + 1);
    lemma_pow2_pos(k);
    vstd::arithmetic::div_mod::lemma_div_denominator(v, 2, pow2(k) as int);
}

/// Numbers are written with their lowest bit first, codes with their highest bit first.
pub proof fn bits_have_their_order(v: int, n: nat, k: int)
    requires
        0 <= v,
        0 <= k < n,
    ensures
        lsb_bits(v, n).len() == n,
        msb_bits(v, n).len() == n,
        lsb_bits(v, n)[k] <==> v / (pow2(k as nat) as int) % 2 == 1,
        msb_bits(v, n)[n - 1 - k] <==> v / (pow2(k as nat) as int) % 2 == 1,
    decreases n,
{
    lemma_lsb_bits_len(v, n);
    lemma_msb_bits_len(v, n);
    lemma_lsb_bits_len(v / 2, (n - 1) as nat);
    lemma_msb_bits_len(v / 2, (n - 1) as nat);
    lemma2_to64();
    if k > 0 {
        bits_have_their_order(v / 2, (n - 1) as nat, k - 1);
        lemma_halved(v, (k - 1) as nat);
        assert((k - 1) as nat + 1 == k as nat);
        assert(lsb_bits(v, n)[k] == lsb_bits(v / 2, (n - 1) as nat)[k - 1]);
        assert(msb_bits(v, n)[n - 1 - k] == msb_bits(v / 2, (n - 1) as nat)[(n - 1) - 1 - (k - 1)]);
    } else {
        assert(pow2(k as nat) == 1);
        assert(v / 1 == v);
    }
}

/// Bits fill bytes from the lowest bit of the first byte on.
pub proof fn bytes_are_filled_from_the_low_end(bytes: Seq<u8>, i: int, k: int)
    requires
        0 <= i < bytes.len(),
        0 <= k < 8,
    ensures
        byte_bits(bytes).len() == 8 * bytes.len(),
        byte_bits(bytes)[8 * i + k] <==> bytes[i] as int / (pow2(k as nat) as int) % 2 == 1,
    decreases bytes.len(),
{
    lemma_byte_bits_len(bytes);
    lemma_byte_bits_len(bytes.drop_last());
    if i < bytes.len() - 1 {
        bytes_are_filled_from_the_low_end(bytes.drop_last(), i, k);
    } else {
        bits_have_their_order(bytes[i] as int, 8, k);
    }
}

/// The number that a code stands for, its highest bit first.
pub open spec fn code_number(b: Seq<bool>) -> int
    decreases b.len(),
{
    if b.len() == 0 {
        0
    } else {
        2 * code_number(b.drop_last()) + (if b.last() {
            1int
        } else {
            0
        })
    }
}

proof fn lemma_code_number(v: int, n: nat)
    requires
        0 <= v < pow2(n),
    ensures
        code_number(msb_bits(v, n)) == v,
    decreases n,
{
    lemma_msb_bits_len(v, n);
    if n > 0 {
        lemma_pow2_unfold(n);
        lemma_code_number(v / 2, (n - 1) as nat);
        assert(msb_bits(v, n).drop_last() =~= msb_bits(v / 2, (n - 1) as nat));
    } else {
        lemma2_to64();
    }
}

/// How long the code of a symbol is: nine bits for bytes from 144 on, seven for the end and short
/// repeats, eight for all else.
pub open spec fn code_length(sym: int) -> int {
    if 144 <= sym <= 255 {
        9
    } else if 256 <= sym <= 279 {
        7
    } else {
        8
    }
}

proof fn lemma_symbol_code(sym: int)
    requires
        0 <= sym <= 287,
    ensures
        symbol_bits(sym).len() == code_length(sym),
        code_number(symbol_bits(sym)) == (if sym <= 143 {
            0x30 + sym
        } else if sym <= 255 {
            0x190 + (sym - 144)
        } else if sym <= 279 {
            sym - 256
        } else {
            0xC0 + (sym - 280)
        }),
{
    lemma2_to64();
    lemma_msb_bits_len(0x30 + sym, 8);
    lemma_msb_bits_len(0x190 + (sym - 144), 9);
    lemma_msb_bits_len(sym - 256, 7);
    lemma_msb_bits_len(0xC0 + (sym - 280), 8);
    if sym <= 143 {
        lemma_code_number(0x30 + sym, 8);
    } else if sym <= 255 {
        lemma_code_number(0x190 + (sym - 144), 9);
    } else if sym <= 279 {
        lemma_code_number(sym - 256, 7);
    } else {
        lemma_code_number(0xC0 + (sym - 280), 8);
    }
}

/// The codes are the canonical ones of their lengths: those of one length follow each other in
/// the order of the symbols, and those of each length follow the shorter ones.
pub proof fn codes_are_canonical(sym: int)
    requires
        0 <= sym <= 287,
    ensures
        symbol_bits(sym).len() == code_length(sym),
        sym < 287 && code_length(sym + 1) == code_length(sym) ==> code_number(symbol_bits(sym + 1))
            == code_number(symbol_bits(sym)) + 1,
        code_number(symbol_bits(256)) == 0,
        code_number(symbol_bits(0)) == 2 * (code_number(symbol_bits(279)) + 1),
        code_number(symbol_bits(280)) == code_number(symbol_bits(143)) + 1,
        code_number(symbol_bits(144)) == 2 * (code_number(symbol_bits(287)) + 1),
{
    lemma_symbol_code(sym);
    if sym < 287 {
        lemma_symbol_code(sym + 1);
    }
    lemma_symbol_code(256);
    lemma_symbol_code(0);
    lemma_symbol_code(279);
    lemma_symbol_code(280);
    lemma_symbol_code(143);
    lemma_symbol_code(144);
    lemma_symbol_code(287);
}

/// The lengths and distances that the codes stand for leave no gap: each code starts where the one
/// before it ends. Longer ones are told apart by more bits, one more for every four codes of
/// lengths and every two of distances; the longest length has a code of its own.
pub proof fn lengths_and_distances_leave_no_gap(k: int)
    ensures
        LEN_BASE@.len() == 29 && LEN_EXTRA@.len() == 29,
        DIST_BASE@.len() == 30 && DIST_EXTRA@.len() == 30,
        LEN_BASE@[0] == 3 && LEN_BASE@[28] == 258 && LEN_EXTRA@[28] == 0,
        DIST_BASE@[0] == 1,
        0 <= k < 28 ==> LEN_EXTRA@[k] == (if k < 4 {
            0
        } else {
            (k - 4) / 4
        }),
        0 <= k < 27 ==> LEN_BASE@[k + 1] == LEN_BASE@[k] + pow2(LEN_EXTRA@[k] as nat),
        0 <= k < 30 ==> DIST_EXTRA@[k] == (if k < 2 {
            0
        } else {
            (k - 2) / 2
        }),
        0 <= k < 29 ==> DIST_BASE@[k + 1] == DIST_BASE@[k] + pow2(DIST_EXTRA@[k] as nat),
{
    lemma2_to64();
}

/// Whether `bits` is the code `l` of a length, what tells `len` apart from the first length of that
/// code, the five bits of the code `d` of a distance, and what tells `dist` apart.
pub open spec fn in_four_parts(bits: Seq<bool>, len: int, dist: int, l: int, d: int) -> bool {
    &&& 0 <= l <= 28
    &&& 0 <= d <= 29
    &&& LEN_BASE@[l] <= len < LEN_BASE@[l] + pow2(LEN_EXTRA@[l] as nat)
    &&& l < 28 ==> len < 258
    &&& DIST_BASE@[d] <= dist < DIST_BASE@[d] + pow2(DIST_EXTRA@[d] as nat)
    &&& bits == symbol_bits(257 + l) + lsb_bits(len - LEN_BASE@[l], LEN_EXTRA@[l] as nat) + msb_bits(
        d,
        5,
    ) + lsb_bits(dist - DIST_BASE@[d], DIST_EXTRA@[d] as nat)
}

/// Every repeat is written in four parts.
pub proof fn repeats_are_written_in_four_parts(len: int, dist: int)
    requires
        3 <= len <= 258,
        1 <= dist <= 32768,
    ensures
        exists|l: int, d: int| #[trigger] in_four_parts(repeat_bits(len, dist), len, dist, l, d),
{
    lemma2_to64();
    lemma_len_code(len);
    lemma_dist_code(dist);
    reveal_with_fuel(crate::png::deflate::last_at_most, 30);
    assert(in_four_parts(repeat_bits(len, dist), len, dist, len_code(len), dist_code(dist)));
}

/// What is compressed is one last block of fixed codes. From each place it goes on with the byte
/// that is there, or with a repeat of bytes that stand there as they stood before; then comes the
/// end.
pub proof fn blocks_say_what_is_there(data: Seq<u8>, i: int)
    requires
        0 <= i <= data.len(),
    ensures
        deflate_bits(data) == seq![true, true, false] + coded_from(data, 0),
        coded_from(data, data.len() as int) == symbol_bits(256),
        i < data.len() ==> {
            ||| coded_from(data, i) == symbol_bits(data[i] as int) + coded_from(data, i + 1)
            ||| exists|len: int, dist: int|
                {
                    &&& 3 <= len <= 258 && i + len <= data.len()
                    &&& 1 <= dist <= 32768 && dist <= i
                    &&& forall|k: int| i <= k < i + len ==> #[trigger] data[k] == data[k - dist]
                    &&& coded_from(data, i) == #[trigger] repeat_bits(len, dist) + coded_from(
                        data,
                        i + len,
                    )
                }
        },
{
    if i < data.len() {
        if let Some((len, dist)) = repeat_at(data, i) {
            lemma_repeat_at(data, i);
            assert forall|k: int| i <= k < i + len implies #[trigger] data[k] == data[k - dist] by {
                assert(data[i - dist + (k - i)] == data[i + (k - i)]);
            }
            assert(coded_from(data, i) == repeat_bits(len, dist) + coded_from(data, i + len));
        }
    }
}

/// A repeat copies what stands `dist` bytes before, what it has just written among it.
pub proof fn repeats_copy(out: Seq<u8>, len: int, dist: int)
    requires
        0 <= len,
        1 <= dist <= out.len(),
    ensures
        repeated(out, len, dist).len() == out.len() + len,
        repeated(out, len, dist).take(out.len() as int) == out,
        forall|k: int|
            out.len() <= k < out.len() + len ==> #[trigger] repeated(out, len, dist)[k] == repeated(
                out,
                len,
                dist,
            )[k - dist],
    decreases len,
{
    if len > 0 {
        let next = out.push(out[out.len() - dist]);
        let r = repeated(out, len, dist);
        repeats_copy(next, len - 1, dist);
        assert(r.take(out.len() as int) =~= out) by {
            assert(r.take(next.len() as int) == next);
            assert forall|k: int| 0 <= k < out.len() implies r[k] == out[k] by {
                assert(r.take(next.len() as int)[k] == next[k]);
            }
        }
        assert(r.take(next.len() as int)[out.len() as int] == next[out.len() as int]);
        assert(r.take(next.len() as int)[out.len() - dist] == next[out.len() - dist]);
    } else {
        assert(repeated(out, len, dist).take(out.len() as int) =~= out);
    }
}

/// The sum of all bytes.
pub open spec fn byte_sum(s: Seq<u8>) -> int
    decreases s.len(),
{
    if s.len() == 0 {
        0
    } else {
        byte_sum(s.drop_last()) + s.last()
    }
}

/// The sum of all bytes, each as often as there are bytes from it on.
pub open spec fn weighted_sum(s: Seq<u8>) -> int
    decreases s.len(),
{
    if s.len() == 0 {
        0
    } else {
        weighted_sum(s.drop_last()) + byte_sum(s)
    }
}

/// The checksum of the data is that of Adler: one more than the sum of the bytes, and above it the
/// weighted sum and the number of bytes, each what is left of it by 65521.
pub proof fn adler_sums_bytes(s: Seq<u8>)
    ensures
        adler_low(s) == (1 + byte_sum(s)) % 65521,
        adler_high(s) == (s.len() + weighted_sum(s)) % 65521,
        adler32_of(s) as int == adler_high(s) * 65536 + adler_low(s),
    decreases s.len(),
{
    if s.len() > 0 {
        let t = s.drop_last();
        adler_sums_bytes(t);
        vstd::arithmetic::div_mod::lemma_add_mod_noop(1 + byte_sum(t), s.last() as int, 65521);
        vstd::arithmetic::div_mod::lemma_add_mod_noop(adler_low(t), s.last() as int, 65521);
        vstd::arithmetic::div_mod::lemma_mod_twice(1 + byte_sum(t), 65521);
        vstd::arithmetic::div_mod::lemma_add_mod_noop(
            t.len() + weighted_sum(t),
            1 + byte_sum(s),
            65521,
        );
        assert(adler_low(s) == (1 + byte_sum(t) + s.last()) % 65521);
        assert(adler_high(s) == ((t.len() + weighted_sum(t)) % 65521 + (1 + byte_sum(s)) % 65521)
            % 65521);
        assert(t.len() + weighted_sum(t) + (1 + byte_sum(s)) == s.len() + weighted_sum(s));
    }
}

/// A number in four bytes, the highest first.
pub open spec fn big_endian(s: Seq<u8>, at: int) -> int {
    s[at] * 0x100_0000 + s[at + 1] * 0x1_0000 + s[at + 2] * 0x100 + s[at + 3]
}

proof fn lemma_be32(x: int)
    requires
        0 <= x <= u32::MAX,
    ensures
        be32(x).len() == 4,
        big_endian(be32(x), 0) == x,
{
}

/// A chunk is the number of its bytes, its name, its bytes, and the checksum of name and bytes.
pub proof fn chunks_have_four_parts(tag: Seq<u8>, data: Seq<u8>)
    requires
        tag.len() == 4,
        data.len() <= u32::MAX,
    ensures
        ({
            let c = chunk(tag, data);
            &&& c.len() == 12 + data.len()
            &&& big_endian(c, 0) == data.len()
            &&& c.subrange(4, 8) == tag
            &&& c.subrange(8, 8 + data.len() as int) == data
            &&& big_endian(c, 8 + data.len() as int) == crc32_of(c.subrange(4, 8 + data.len() as int))
        }),
{
    let c = chunk(tag, data);
    let n = data.len() as int;
    lemma_be32(n);
    lemma_be32(crc32_of(tag + data) as int);
    assert(c.subrange(4, 8) =~= tag);
    assert(c.subrange(8, 8 + n) =~= data);
    assert(c.subrange(4, 8 + n) =~= tag + data);
    assert(forall|k: int| 0 <= k < 4 ==> c[k] == be32(n)[k]);
    assert(forall|k: int|
        0 <= k < 4 ==> #[trigger] c[8 + n + k] == be32(crc32_of(tag + data) as int)[k]);
    assert(c[8 + n + 0] == be32(crc32_of(tag + data) as int)[0]);
    assert(c[8 + n + 1] == be32(crc32_of(tag + data) as int)[1]);
    assert(c[8 + n + 2] == be32(crc32_of(tag + data) as int)[2]);
    assert(c[8 + n + 3] == be32(crc32_of(tag + data) as int)[3]);
}

/// The header says width and height, each in four bytes, and that there are three samples of eight
/// bits for each pixel, packed and filtered as usual, row after row.
pub proof fn headers_say_the_size(w: int, h: int)
    requires
        0 <= w <= u32::MAX,
        0 <= h <= u32::MAX,
    ensures
        header(w, h).len() == 13,
        big_endian(header(w, h), 0) == w,
        big_endian(header(w, h), 4) == h,
        header(w, h).skip(8) == seq![8u8, 2, 0, 0, 0],
{
    lemma_be32(w);
    lemma_be32(h);
    assert(header(w, h).skip(8) =~= seq![8u8, 2, 0, 0, 0]);
}

/// What is compressed stands behind two bytes that say how, and before its checksum.
pub proof fn compressed_data_is_checked(rows: Seq<u8>)
    ensures
        ({
            let n = zlib(rows).len() - 4;
            &&& n >= 2
            &&& zlib(rows).take(2) == seq![0x78u8, 0x01]
            &&& zlib(rows).subrange(2, n) == deflated(rows)
            &&& big_endian(zlib(rows), n) == adler32_of(rows)
        }),
{
    lemma_be32(adler32_of(rows) as int);
    let n = zlib(rows).len() - 4;
    let t = be32(adler32_of(rows) as int);
    assert(zlib(rows).take(2) =~= seq![0x78u8, 0x01]);
    assert(zlib(rows).subrange(2, n) =~= deflated(rows));
    assert(zlib(rows)[n] == t[0] && zlib(rows)[n + 1] == t[1] && zlib(rows)[n + 2] == t[2] && zlib(
        rows,
    )[n + 3] == t[3]);
}

/// A file is the signature and three chunks: the header, the filtered rows, and the end.
pub proof fn files_have_three_chunks(w: int, h: int, rgb: Seq<u8>)
    ensures
        png_file(w, h, rgb) == seq![137u8, 80, 78, 71, 13, 10, 26, 10] + chunk(
            seq![73u8, 72, 68, 82],
            header(w, h),
        ) + chunk(seq![73u8, 68, 65, 84], zlib(stored_rows(rgb, w * 3, h))) + chunk(
            seq![73u8, 69, 78, 68],
            Seq::empty(),
        ),
{
}

} // verus!
