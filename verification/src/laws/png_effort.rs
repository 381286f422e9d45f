//! PNG: repeats are found and taken as far as they go, and the checksum of a chunk.

use crate::png::checksum::{crc32_of, crc_bit, crc_bits, crc_register};
use crate::png::deflate::{agreement, hash_at, last_seen, longest, repeat_at};
use vstd::prelude::*;

verus! {

/// Whether the same three bytes stand at two places.
pub open spec fn same_three(data: Seq<u8>, a: int, b: int) -> bool {
    data[a] == data[b] && data[a + 1] == data[b + 1] && data[a + 2] == data[b + 2]
}

proof fn lemma_last_seen(data: Seq<u8>, end: int, h: u32, c: int)
    requires
        0 <= c < end,
        c + 3 <= data.len(),
        hash_at(data, c) == h,
        forall|j: int| c < j < end && j + 3 <= data.len() ==> #[trigger] hash_at(data, j) != h,
    ensures
        last_seen(data, end, h) == c,
    decreases end,
{
    if end - 1 > c {
        if end - 1 + 3 <= data.len() {
            assert(hash_at(data, end - 1) != h);
        }
        lemma_last_seen(data, end - 1, h, c);
    }
}

proof fn lemma_agreement(data: Seq<u8>, c: int, i: int, l: int, max: int)
    requires
        0 <= l <= max,
    ensures
        ({
            let a = agreement(data, c, i, l, max);
            &&& l <= a <= max
            &&& forall|k: int| l <= k < a ==> data[c + k] == #[trigger] data[i + k]
            &&& a < max ==> data[c + a] != data[i + a]
        }),
    decreases max - l,
{
    if l < max && data[c + l] == data[i + l] {
        lemma_agreement(data, c, i, l + 1, max);
    }
}

/// Where the same three bytes stood before, not too far back and with nothing since that is filed in
/// the same place, the repeat is found; it goes on until the bytes differ, the data ends or the
/// longest repeat is reached.
pub proof fn repeats_are_found(data: Seq<u8>, i: int, c: int)
    requires
        0 <= c < i,
        i + 3 <= data.len(),
        same_three(data, c, i),
        i - c <= 32768,
        c < 0xFFFF_FFFF,
        forall|j: int| c < j < i ==> #[trigger] hash_at(data, j) != hash_at(data, i),
    ensures
        ({
            let r = repeat_at(data, i);
            let (len, dist) = r->Some_0;
            &&& r is Some
            &&& dist == i - c
            &&& 3 <= len <= 258 && i + len <= data.len()
            &&& forall|k: int| 0 <= k < len ==> data[c + k] == #[trigger] data[i + k]
            &&& len == 258 || i + len == data.len() || data[c + len] != data[i + len]
        }),
{
    lemma_last_seen(data, i, hash_at(data, i), c);
    let max = longest(data, i);
    lemma_agreement(data, c, i, 0, max);
    let a = agreement(data, c, i, 0, max);
    if a < 3 {
        assert(data[c + a] != data[i + a]);
    }
}

/// A byte that goes on repeating itself is taken as a repeat of the byte before, as far as it goes.
pub proof fn runs_are_found(data: Seq<u8>, i: int)
    requires
        0 < i < 0xFFFF_FFFF,
        i + 3 <= data.len(),
        data[i - 1] == data[i],
        data[i] == data[i + 1],
        data[i + 1] == data[i + 2],
    ensures
        ({
            let r = repeat_at(data, i);
            let (len, dist) = r->Some_0;
            &&& r is Some
            &&& dist == 1
            &&& 3 <= len <= 258 && i + len <= data.len()
            &&& len == 258 || i + len == data.len() || data[i + len - 1] != data[i + len]
        }),
{
    repeats_are_found(data, i, i - 1);
}

/// One step of the checksum: the number is halved, and where a one falls out, the polynomial is
/// mixed in.
pub open spec fn stepped(c: u32) -> u32 {
    if c % 2 == 1 {
        0xEDB8_8320u32 ^ (c / 2)
    } else {
        c / 2
    }
}

/// The checksum starts from all ones; a byte is mixed into the low end and followed by eight steps;
/// in the end all bits are turned.
pub proof fn checksums_take_eight_steps_for_a_byte(s: Seq<u8>, b: u8, c: u32)
    ensures
        crc_register(c, Seq::empty()) == c,
        crc_register(c, s.push(b)) == stepped(
            stepped(
                stepped(
                    stepped(
                        stepped(
                            stepped(stepped(stepped(crc_register(c, s) ^ (b as u32)))),
                        ),
                    ),
                ),
            ),
        ),
        crc32_of(s) == 0xFFFF_FFFF - crc_register(0xFFFF_FFFF, s),
{
    assert(s.push(b).drop_last() =~= s);
    let x = crc_register(c, s) ^ (b as u32);
    reveal_with_fuel(crc_bits, 9);
    let (x1, x2, x3, x4) = (
        stepped(x),
        stepped(stepped(x)),
        stepped(stepped(stepped(x))),
        stepped(stepped(stepped(stepped(x)))),
    );
    lemma_step(x);
    lemma_step(x1);
    lemma_step(x2);
    lemma_step(x3);
    lemma_step(x4);
    lemma_step(stepped(x4));
    lemma_step(stepped(stepped(x4)));
    lemma_step(stepped(stepped(stepped(x4))));
    let r = crc_register(0xFFFF_FFFF, s);
    assert(!r == 0xFFFF_FFFFu32 - r) by (bit_vector);
}

proof fn lemma_step(c: u32)
    ensures
        crc_bit(c) == stepped(c),
{
    assert(c & 1 == c % 2 && c >> 1 == c / 2) by (bit_vector);
}

} // verus!
