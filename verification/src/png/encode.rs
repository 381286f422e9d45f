//! The PNG container: signature, chunks, and the zlib wrapper of the image data.

use super::checksum::{adler32, adler32_of, crc32, crc32_of, joined};
use super::deflate::{
    deflate_fixed, deflated, deflated_is_an_eighth_longer_at_most, inflated,
    lemma_inflate_deflated,
};
use super::filter::{
    filter_rows, known_filters, lemma_stored_rows_len, lemma_unfilter, stored_rows, unfiltered,
};
use vstd::prelude::*;

verus! {

/// The eight bytes that every PNG file starts with.
pub open spec fn signature() -> Seq<u8> {
    seq![0x89u8, 0x50, 0x4E, 0x47, 0x0D, 0x0A, 0x1A, 0x0A]
}

pub open spec fn ihdr_tag() -> Seq<u8> {
    seq![0x49u8, 0x48, 0x44, 0x52]
}

pub open spec fn idat_tag() -> Seq<u8> {
    seq![0x49u8, 0x44, 0x41, 0x54]
}

pub open spec fn iend_tag() -> Seq<u8> {
    seq![0x49u8, 0x45, 0x4E, 0x44]
}

/// A 32-bit number, highest byte first.
pub open spec fn be32(x: int) -> Seq<u8> {
    seq![
        (x / 0x100_0000 % 256) as u8,
        (x / 0x1_0000 % 256) as u8,
        (x / 0x100 % 256) as u8,
        (x % 256) as u8,
    ]
}

/// The number that four bytes, highest first, stand for.
pub open spec fn from_be32(s: Seq<u8>) -> int {
    s[0] * 0x100_0000 + s[1] * 0x1_0000 + s[2] * 0x100 + s[3]
}

/// A chunk: length, tag, data, and the CRC of tag and data. The length field holds 32 bits.
pub open spec fn chunk(tag: Seq<u8>, data: Seq<u8>) -> Seq<u8> {
    be32(data.len() as int) + tag + data + be32(crc32_of(tag + data) as int)
}

/// The header: size, then eight bits per sample, RGB, deflate, adaptive filters, no interlacing.
pub open spec fn header(w: int, h: int) -> Seq<u8> {
    be32(w) + be32(h) + seq![8u8, 2, 0, 0, 0]
}

/// The image data: the stored rows as a zlib stream.
pub open spec fn zlib(rows: Seq<u8>) -> Seq<u8> {
    seq![0x78u8, 0x01] + deflated(rows) + be32(adler32_of(rows) as int)
}

/// The PNG file of an image of `w` by `h` pixels.
pub open spec fn png_file(w: int, h: int, rgb: Seq<u8>) -> Seq<u8> {
    signature() + chunk(ihdr_tag(), header(w, h)) + chunk(
        idat_tag(),
        zlib(stored_rows(rgb, w * 3, h)),
    ) + chunk(iend_tag(), Seq::empty())
}

/// A chunk of a file, taken apart.
pub struct Chunk {
    pub tag: Seq<u8>,
    pub data: Seq<u8>,
}

/// Decoding: the chunks of a file after its signature, each with a matching CRC.
pub open spec fn chunks(bytes: Seq<u8>) -> Option<Seq<Chunk>>
    decreases bytes.len(),
{
    if bytes.len() == 0 {
        Some(Seq::empty())
    } else if bytes.len() < 12 {
        None
    } else {
        let n = from_be32(bytes);
        if bytes.len() < 12 + n {
            None
        } else {
            let tag = bytes.subrange(4, 8);
            let data = bytes.subrange(8, 8 + n);
            if from_be32(bytes.subrange(8 + n, 12 + n)) != crc32_of(tag + data) {
                None
            } else {
                match chunks(bytes.skip(12 + n)) {
                    None => None,
                    Some(rest) => Some(seq![Chunk { tag, data }] + rest),
                }
            }
        }
    }
}

/// Decoding: the image data spread over a run of data chunks.
pub open spec fn image_data(parts: Seq<Chunk>) -> Option<Seq<u8>>
    decreases parts.len(),
{
    if parts.len() == 0 {
        Some(Seq::empty())
    } else if parts.last().tag != idat_tag() {
        None
    } else {
        match image_data(parts.drop_last()) {
            None => None,
            Some(before) => Some(before + parts.last().data),
        }
    }
}

/// Decoding: what a zlib stream holds, if its header and its Adler-32 are right.
pub open spec fn unzlib(z: Seq<u8>) -> Option<Seq<u8>> {
    if z.len() < 6 || z[0] % 16 != 8 || (z[0] * 256 + z[1]) % 31 != 0 {
        None
    } else {
        match inflated(z.subrange(2, z.len() - 4)) {
            None => None,
            Some(raw) => if from_be32(z.skip(z.len() - 4)) == adler32_of(raw) {
                Some(raw)
            } else {
                None
            },
        }
    }
}

/// Decoding: width, height and bytes of an 8-bit RGB file without interlacing.
pub open spec fn png_image(file: Seq<u8>) -> Option<(int, int, Seq<u8>)> {
    if file.len() < 8 || file.take(8) != signature() {
        None
    } else {
        match chunks(file.skip(8)) {
            None => None,
            Some(c) => if c.len() < 2 || c[0].tag != ihdr_tag() || c[0].data.len() != 13
                || c[0].data.skip(8) != seq![8u8, 2, 0, 0, 0] || c.last() != (Chunk {
                tag: iend_tag(),
                data: Seq::empty(),
            }) {
                None
            } else {
                let w = from_be32(c[0].data);
                let h = from_be32(c[0].data.skip(4));
                match image_data(c.subrange(1, c.len() - 1)) {
                    None => None,
                    Some(z) => match unzlib(z) {
                        None => None,
                        Some(raw) => if raw.len() == h * (w * 3 + 1) && known_filters(
                            raw,
                            w * 3,
                            h,
                        ) {
                            Some((w, h, unfiltered(raw, w * 3, h * (w * 3))))
                        } else {
                            None
                        },
                    },
                }
            },
        }
    }
}

proof fn lemma_be32(x: int)
    requires
        0 <= x <= u32::MAX,
    ensures
        from_be32(be32(x)) == x,
{
}

/// Only the low 32 bits of a number are written.
proof fn lemma_be32_low(x: int)
    requires
        0 <= x,
    ensures
        be32(x % 0x1_0000_0000) == be32(x),
{
    let q = x / 0x1_0000_0000;
    let r = x % 0x1_0000_0000;
    assert(x / 0x100_0000 == q * 256 + r / 0x100_0000);
    assert(x / 0x1_0000 == q * 65536 + r / 0x1_0000);
    assert(x / 0x100 == q * 0x100_0000 + r / 0x100);
    assert(x / 0x100_0000 % 256 == r / 0x100_0000 % 256);
    assert(x / 0x1_0000 % 256 == r / 0x1_0000 % 256);
    assert(x / 0x100 % 256 == r / 0x100 % 256);
    assert(x % 256 == r % 256);
}

/// A chunk reads back as itself, whatever follows it.
proof fn lemma_chunk(tag: Seq<u8>, data: Seq<u8>, rest: Seq<u8>)
    requires
        tag.len() == 4,
        data.len() <= u32::MAX,
    ensures
        chunks(chunk(tag, data) + rest) == (match chunks(rest) {
            None => None::<Seq<Chunk>>,
            Some(more) => Some(seq![Chunk { tag, data }] + more),
        }),
{
    let bytes = chunk(tag, data) + rest;
    let n = data.len() as int;
    lemma_be32(n);
    lemma_be32(crc32_of(tag + data) as int);
    assert(from_be32(bytes) == from_be32(be32(n)));
    assert(bytes.subrange(4, 8) =~= tag);
    assert(bytes.subrange(8, 8 + n) =~= data);
    assert(bytes.subrange(8 + n, 12 + n) =~= be32(crc32_of(tag + data) as int));
    assert(bytes.skip(12 + n) =~= rest);
}

/// The chunks of a file read back as the three chunks that it was made of.
proof fn lemma_file_chunks(w: int, h: int, rgb: Seq<u8>)
    requires
        zlib(stored_rows(rgb, w * 3, h)).len() <= u32::MAX,
    ensures
        ({
            let file = png_file(w, h, rgb);
            &&& file.len() >= 8
            &&& file.take(8) == signature()
            &&& chunks(file.skip(8)) == Some(
                seq![
                    Chunk { tag: ihdr_tag(), data: header(w, h) },
                    Chunk { tag: idat_tag(), data: zlib(stored_rows(rgb, w * 3, h)) },
                    Chunk { tag: iend_tag(), data: Seq::empty() },
                ],
            )
        }),
{
    let z = zlib(stored_rows(rgb, w * 3, h));
    let file = png_file(w, h, rgb);
    let c1 = chunk(ihdr_tag(), header(w, h));
    let c2 = chunk(idat_tag(), z);
    let c3 = chunk(iend_tag(), Seq::empty());
    let none = Seq::<u8>::empty();
    lemma_four_parts(signature(), c1, c2, c3);
    lemma_chunk(iend_tag(), none, none);
    lemma_chunk(idat_tag(), z, c3 + none);
    lemma_chunk(ihdr_tag(), header(w, h), c2 + (c3 + none));
    let d1 = Chunk { tag: ihdr_tag(), data: header(w, h) };
    let d2 = Chunk { tag: idat_tag(), data: z };
    let d3 = Chunk { tag: iend_tag(), data: Seq::empty() };
    assert(seq![d1] + (seq![d2] + (seq![d3] + Seq::empty())) =~= seq![d1, d2, d3]);
}

proof fn lemma_four_parts(a: Seq<u8>, b: Seq<u8>, c: Seq<u8>, d: Seq<u8>)
    ensures
        (a + b + c + d).take(a.len() as int) == a,
        (a + b + c + d).skip(a.len() as int) == b + (c + (d + Seq::<u8>::empty())),
{
    assert((a + b + c + d).take(a.len() as int) =~= a);
    assert((a + b + c + d).skip(a.len() as int) =~= b + (c + (d + Seq::<u8>::empty())));
}

/// A zlib stream reads back as what it holds.
proof fn lemma_unzlib(rows: Seq<u8>)
    ensures
        unzlib(zlib(rows)) == Some(rows),
{
    let z = zlib(rows);
    lemma_inflate_deflated(rows);
    lemma_be32(adler32_of(rows) as int);
    assert(z.subrange(2, z.len() - 4) =~= deflated(rows));
    assert(z.skip(z.len() - 4) =~= be32(adler32_of(rows) as int));
}

/// The header reads back as the size.
proof fn lemma_header(w: int, h: int)
    requires
        1 <= w <= u32::MAX,
        1 <= h <= u32::MAX,
    ensures
        header(w, h).len() == 13,
        header(w, h).skip(8) == seq![8u8, 2, 0, 0, 0],
        from_be32(header(w, h)) == w,
        from_be32(header(w, h).skip(4)) == h,
{
    assert(header(w, h).skip(8) =~= seq![8u8, 2, 0, 0, 0]);
    lemma_be32(w);
    lemma_be32(h);
    let s = header(w, h);
    assert(s[0] == be32(w)[0] && s[1] == be32(w)[1] && s[2] == be32(w)[2] && s[3] == be32(w)[3]);
    let t = s.skip(4);
    assert(t[0] == be32(h)[0] && t[1] == be32(h)[1] && t[2] == be32(h)[2] && t[3] == be32(h)[3]);
}

/// The encoder is lossless: decoding the PNG file of an image gives back its size and its bytes,
/// one for one. The image data must fit in one chunk, whose length field has 32 bits.
pub proof fn png_round_trip(w: int, h: int, rgb: Seq<u8>)
    requires
        1 <= w <= u32::MAX,
        1 <= h <= u32::MAX,
        rgb.len() == w * h * 3,
        zlib(stored_rows(rgb, w * 3, h)).len() <= u32::MAX,
    ensures
        png_image(png_file(w, h, rgb)) == Some((w, h, rgb)),
{
    let rows = stored_rows(rgb, w * 3, h);
    lemma_file_chunks(w, h, rgb);
    lemma_header(w, h);
    let c = chunks(png_file(w, h, rgb).skip(8))->Some_0;
    let parts = c.subrange(1, c.len() - 1);
    assert(parts =~= seq![Chunk { tag: idat_tag(), data: zlib(rows) }]);
    assert(parts.drop_last() =~= Seq::<Chunk>::empty());
    reveal_with_fuel(image_data, 2);
    assert(Seq::<u8>::empty() + zlib(rows) =~= zlib(rows));
    assert(image_data(parts) == Some(zlib(rows)));
    lemma_unzlib(rows);
    lemma_stored_rows_len(rgb, w * 3, h);
    assert(rgb.len() == h * (w * 3)) by (nonlinear_arith)
        requires
            rgb.len() == w * h * 3,
    ;
    lemma_unfilter(rgb, w * 3, h, rgb.len() as int);
    assert(rgb.take(rgb.len() as int) =~= rgb);
}

/// A PNG file is at most an eighth larger than its rows with their filter types, and then some 65
/// bytes.
pub proof fn png_is_an_eighth_larger_at_most(w: int, h: int, rgb: Seq<u8>)
    requires
        0 <= w,
        0 <= h,
    ensures
        8 * png_file(w, h, rgb).len() <= 9 * (h * (3 * w + 1)) + 521,
{
    lemma_stored_rows_len(rgb, w * 3, h);
    assert(w * 3 + 1 == 3 * w + 1);
    deflated_is_an_eighth_longer_at_most(stored_rows(rgb, w * 3, h));
}

/// Appends `x`, highest byte first.
fn push_be32(out: &mut Vec<u8>, x: u32)
    ensures
        final(out)@ == old(out)@ + be32(x as int),
{
    out.push((x / 0x100_0000) as u8);
    out.push((x / 0x1_0000 % 256) as u8);
    out.push((x / 0x100 % 256) as u8);
    out.push((x % 256) as u8);
    assert(out@ =~= old(out)@ + be32(x as int));
}

/// Appends the bytes of `s`.
fn push_all(out: &mut Vec<u8>, s: &[u8])
    ensures
        final(out)@ == old(out)@ + s@,
{
    let mut i: usize = 0;
    while i < s.len()
        invariant
            i <= s@.len(),
            out@ == old(out)@ + s@.take(i as int),
        decreases s@.len() - i,
    {
        out.push(s[i]);
        i += 1;
        assert(out@ =~= old(out)@ + s@.take(i as int));
    }
    assert(s@.take(i as int) =~= s@);
}

proof fn lemma_append_four(a: Seq<u8>, b: Seq<u8>, c: Seq<u8>, d: Seq<u8>, e: Seq<u8>)
    ensures
        a + b + c + d + e == a + (b + c + d + e),
{
    assert(a + b + c + d + e =~= a + (b + c + d + e));
}

proof fn lemma_joined_two(parts: Seq<&[u8]>)
    requires
        parts.len() == 2,
    ensures
        joined(parts) == parts[0]@ + parts[1]@,
{
    reveal_with_fuel(joined, 3);
    assert(parts.drop_last().drop_last() =~= Seq::<&[u8]>::empty());
    assert(joined(parts) =~= parts[0]@ + parts[1]@);
}

/// Appends a chunk.
pub fn write_chunk(out: &mut Vec<u8>, tag: &[u8; 4], data: &[u8])
    ensures
        final(out)@ == old(out)@ + chunk(tag@, data@),
{
    let n: u64 = data.len() as u64;
    let low: u64 = n & 0xFFFF_FFFF;
    assert(low == n % 0x1_0000_0000 && low <= 0xFFFF_FFFF) by (bit_vector)
        requires
            low == n & 0xFFFF_FFFF,
    ;
    push_be32(out, low as u32);
    proof {
        lemma_be32_low(data@.len() as int);
    }
    push_all(out, tag);
    push_all(out, data);
    let parts: [&[u8]; 2] = [tag, data];
    let crc: u32 = crc32(&parts);
    proof {
        lemma_joined_two(parts@);
    }
    push_be32(out, crc);
    proof {
        lemma_append_four(
            old(out)@,
            be32(data@.len() as int),
            tag@,
            data@,
            be32(crc32_of(tag@ + data@) as int),
        );
    }
}

/// The PNG file of an image of `w` by `h` pixels, three bytes each, row by row.
pub fn encode_rgb8(w: usize, h: usize, rgb: &[u8]) -> (out: Vec<u8>)
    requires
        rgb@.len() == w * h * 3,
        1 <= w <= u32::MAX,
        1 <= h <= u32::MAX,
    ensures
        out@ == png_file(w as int, h as int, rgb@),
{
    let filtered: Vec<u8> = filter_rows(w, h, rgb);
    let mut z: Vec<u8> = Vec::new();
    z.push(0x78);
    z.push(0x01);
    let body: Vec<u8> = deflate_fixed(&filtered);
    push_all(&mut z, &body);
    push_be32(&mut z, adler32(&filtered));
    assert(z@ =~= zlib(filtered@));
    let mut out: Vec<u8> = Vec::new();
    let sig: [u8; 8] = [0x89, 0x50, 0x4E, 0x47, 0x0D, 0x0A, 0x1A, 0x0A];
    push_all(&mut out, &sig);
    let mut ihdr: Vec<u8> = Vec::new();
    push_be32(&mut ihdr, w as u32);
    push_be32(&mut ihdr, h as u32);
    let kind: [u8; 5] = [8, 2, 0, 0, 0];
    push_all(&mut ihdr, &kind);
    assert(ihdr@ =~= header(w as int, h as int));
    assert(out@ =~= signature());
    let tag_ihdr: [u8; 4] = [0x49, 0x48, 0x44, 0x52];
    let tag_idat: [u8; 4] = [0x49, 0x44, 0x41, 0x54];
    let tag_iend: [u8; 4] = [0x49, 0x45, 0x4E, 0x44];
    assert(tag_ihdr@ =~= ihdr_tag());
    assert(tag_idat@ =~= idat_tag());
    assert(tag_iend@ =~= iend_tag());
    write_chunk(&mut out, &tag_ihdr, &ihdr);
    write_chunk(&mut out, &tag_idat, &z);
    let nothing: Vec<u8> = Vec::new();
    write_chunk(&mut out, &tag_iend, &nothing);
    out
}

} // verus!
