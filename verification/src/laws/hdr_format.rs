//! RGBE files as readers have them: packets, the order of the channels, and which way up a picture
//! is.

use crate::decimal::{ascii, decimal_text};
use crate::hdr::{
    after_header, body_code, channel_code, channel_of, channels, first_line, hdr_file, header_text,
    lemma_literal_len, lemma_run_len, literal_len, repeat_byte, resolution_of, rgbe_image, rows,
    run_len, scanline, scanline_code, stacked, turned, unrun, woven, HdrError,
};
use crate::text::{parsed_unsigned, starts_with, words};
use vstd::prelude::*;

verus! {

/// A packet of a coded channel.
pub enum Packet {
    /// A byte so many times.
    Run { count: int, byte: u8 },
    /// Bytes as they are.
    Copy { bytes: Seq<u8> },
}

/// Whether a packet can be written: a run has up to 127 bytes, a copy up to 128.
pub open spec fn packet_fits(p: Packet) -> bool {
    match p {
        Packet::Run { count, .. } => 1 <= count <= 127,
        Packet::Copy { bytes } => 1 <= bytes.len() <= 128,
    }
}

/// A packet as it is written: a run as 128 and its count together and then the byte, a copy as
/// its count and then its bytes.
pub open spec fn packet_code(p: Packet) -> Seq<u8> {
    match p {
        Packet::Run { count, byte } => seq![(128 + count) as u8, byte],
        Packet::Copy { bytes } => seq![bytes.len() as u8] + bytes,
    }
}

/// The bytes that a packet stands for.
pub open spec fn packet_bytes(p: Packet) -> Seq<u8> {
    match p {
        Packet::Run { count, byte } => Seq::new(count as nat, |i: int| byte),
        Packet::Copy { bytes } => bytes,
    }
}

pub open spec fn packets_fit(p: Seq<Packet>) -> bool {
    forall|i: int| 0 <= i < p.len() ==> packet_fits(#[trigger] p[i])
}

/// Packets as they are written.
pub open spec fn code(p: Seq<Packet>) -> Seq<u8>
    decreases p.len(),
{
    if p.len() == 0 {
        Seq::empty()
    } else {
        packet_code(p[0]) + code(p.skip(1))
    }
}

/// The bytes that packets stand for.
pub open spec fn expanded(p: Seq<Packet>) -> Seq<u8>
    decreases p.len(),
{
    if p.len() == 0 {
        Seq::empty()
    } else {
        packet_bytes(p[0]) + expanded(p.skip(1))
    }
}

/// Packets are read as what they stand for, up to the width.
pub proof fn packets_are_expanded(p: Seq<Packet>, out: Seq<u8>, rest: Seq<u8>, w: int)
    requires
        packets_fit(p),
        out.len() + expanded(p).len() == w,
    ensures
        unrun(code(p) + rest, out, w) == Ok::<(Seq<u8>, Seq<u8>), HdrError>(
            (out + expanded(p), rest),
        ),
    decreases p.len(),
{
    let s = code(p) + rest;
    if p.len() == 0 {
        assert(s =~= rest);
        assert(out + expanded(p) =~= out);
    } else {
        let q = p[0];
        let b = packet_bytes(q);
        let more = p.skip(1);
        assert(packet_fits(p[0]));
        assert forall|i: int| 0 <= i < more.len() implies packet_fits(#[trigger] more[i]) by {
            assert(packet_fits(p[i + 1]));
        }
        packets_are_expanded(more, out + b, rest, w);
        assert(s =~= packet_code(q) + (code(more) + rest));
        assert(out + expanded(p) =~= out + b + expanded(more));
        match q {
            Packet::Run { count, byte } => {
                assert(s.skip(2) =~= code(more) + rest);
                assert(repeat_byte(s[1], count) =~= b);
            },
            Packet::Copy { bytes } => {
                let n = bytes.len() as int;
                assert(s[0] == n);
                assert(s.skip(1 + n) =~= code(more) + rest);
                assert(s.subrange(1, 1 + n) =~= bytes);
            },
        }
    }
}

/// A coded scanline is 2, 2, the width in two bytes, and the packets of red, green, blue and
/// exponent, in this order: byte `k` of pixel `x` is byte `x` of channel `k`.
pub proof fn channels_stand_in_order(
    r: Seq<Packet>,
    g: Seq<Packet>,
    b: Seq<Packet>,
    e: Seq<Packet>,
    rest: Seq<u8>,
    w: int,
)
    requires
        8 <= w <= 0x7FFF,
        packets_fit(r) && packets_fit(g) && packets_fit(b) && packets_fit(e),
        expanded(r).len() == w && expanded(g).len() == w && expanded(b).len() == w && expanded(
            e,
        ).len() == w,
    ensures
        ({
            let s = seq![2u8, 2, (w / 256) as u8, (w % 256) as u8] + code(r) + code(g) + code(b)
                + code(e) + rest;
            &&& scanline(s, w) matches Ok((line, after)) && after == rest && line.len() == 4 * w
                && forall|x: int|
                #![trigger line[4 * x]]
                0 <= x < w ==> line[4 * x] == expanded(r)[x] && line[4 * x + 1] == expanded(g)[x]
                    && line[4 * x + 2] == expanded(b)[x] && line[4 * x + 3] == expanded(e)[x]
        }),
{
    let s = seq![2u8, 2, (w / 256) as u8, (w % 256) as u8] + code(r) + code(g) + code(b) + code(e)
        + rest;
    let r3 = code(e) + rest;
    let r2 = code(b) + r3;
    let r1 = code(g) + r2;
    assert(s.skip(4) =~= code(r) + r1);
    let none = Seq::<u8>::empty();
    packets_are_expanded(r, none, r1, w);
    packets_are_expanded(g, none, r2, w);
    packets_are_expanded(b, none, r3, w);
    packets_are_expanded(e, none, rest, w);
    assert(none + expanded(r) =~= expanded(r));
    assert(none + expanded(g) =~= expanded(g));
    assert(none + expanded(b) =~= expanded(b));
    assert(none + expanded(e) =~= expanded(e));
    reveal_with_fuel(channels, 6);
    let all = seq![expanded(r), expanded(g), expanded(b), expanded(e)];
    assert(Seq::<Seq<u8>>::empty().push(expanded(r)).push(expanded(g)).push(expanded(b)).push(
        expanded(e),
    ) =~= all);
    let line = woven(all, w);
    assert forall|x: int| #![trigger line[4 * x]] 0 <= x < w implies line[4 * x] == expanded(r)[x]
        && line[4 * x + 1] == expanded(g)[x] && line[4 * x + 2] == expanded(b)[x] && line[4 * x + 3]
        == expanded(e)[x] by {
        assert((4 * x) % 4 == 0 && (4 * x) / 4 == x);
        assert((4 * x + 1) % 4 == 1 && (4 * x + 1) / 4 == x);
        assert((4 * x + 2) % 4 == 2 && (4 * x + 2) / 4 == x);
        assert((4 * x + 3) % 4 == 3 && (4 * x + 3) / 4 == x);
    }
}

/// The packets of a channel from `x` on.
spec fn packets_from(c: Seq<u8>, x: int) -> Seq<Packet>
    decreases c.len() - x,
{
    let r = run_len(c, x, 1);
    let n = literal_len(c, x, 0);
    if x >= c.len() {
        Seq::empty()
    } else if 4 <= r <= c.len() - x {
        seq![Packet::Run { count: r, byte: c[x] }] + packets_from(c, x + r)
    } else if 0 < n <= c.len() - x {
        seq![Packet::Copy { bytes: c.subrange(x, x + n) }] + packets_from(c, x + n)
    } else {
        Seq::empty()
    }
}

proof fn lemma_packets(c: Seq<u8>, x: int)
    requires
        0 <= x <= c.len(),
    ensures
        packets_fit(packets_from(c, x)),
        code(packets_from(c, x)) == channel_code(c, x),
        expanded(packets_from(c, x)) == c.skip(x),
    decreases c.len() - x,
{
    let p = packets_from(c, x);
    if x < c.len() {
        let r = run_len(c, x, 1);
        let n = literal_len(c, x, 0);
        lemma_run_len(c, x, 1);
        lemma_literal_len(c, x, 0);
        let step = if 4 <= r {
            r
        } else {
            lemma_literal_len(c, x, 1);
            n
        };
        lemma_packets(c, x + step);
        assert(p.skip(1) =~= packets_from(c, x + step));
        assert forall|i: int| 0 <= i < p.len() implies packet_fits(#[trigger] p[i]) by {
            if i > 0 {
                assert(p[i] == packets_from(c, x + step)[i - 1]);
            }
        }
        assert(packet_bytes(p[0]) =~= c.subrange(x, x + step));
        assert(c.subrange(x, x + step) + c.skip(x + step) =~= c.skip(x));
    } else {
        assert(c.skip(x) =~= Seq::<u8>::empty());
    }
}

/// What is written can be read by others: a scanline of a width that is coded is written as 2, 2,
/// the width, and packets of red, green, blue and exponent, in this order, of up to four times the
/// width in bytes. Other scanlines are written as they are.
pub proof fn scanlines_are_written_in_order(line: Seq<u8>, w: int)
    requires
        1 <= w,
        line.len() == 4 * w,
    ensures
        !(8 <= w <= 0x7FFF) ==> scanline_code(line, w) == line,
        8 <= w <= 0x7FFF ==> exists|r: Seq<Packet>, g: Seq<Packet>, b: Seq<Packet>, e: Seq<Packet>|
            #[trigger] writes(line, w, scanline_code(line, w), r, g, b, e),
{
    if 8 <= w <= 0x7FFF {
        let r = channel_of(line, w, 0);
        let g = channel_of(line, w, 1);
        let b = channel_of(line, w, 2);
        let e = channel_of(line, w, 3);
        lemma_packets(r, 0);
        lemma_packets(g, 0);
        lemma_packets(b, 0);
        lemma_packets(e, 0);
        assert(r.skip(0) =~= r && g.skip(0) =~= g && b.skip(0) =~= b && e.skip(0) =~= e);
        assert(writes(
            line,
            w,
            scanline_code(line, w),
            packets_from(r, 0),
            packets_from(g, 0),
            packets_from(b, 0),
            packets_from(e, 0),
        ));
    }
}

/// Whether `s` is this scanline, in these packets.
pub open spec fn writes(
    line: Seq<u8>,
    w: int,
    s: Seq<u8>,
    r: Seq<Packet>,
    g: Seq<Packet>,
    b: Seq<Packet>,
    e: Seq<Packet>,
) -> bool {
    &&& packets_fit(r) && packets_fit(g) && packets_fit(b) && packets_fit(e)
    &&& expanded(r).len() == w && expanded(g).len() == w && expanded(b).len() == w && expanded(e).len()
        == w
    &&& s == seq![2u8, 2, (w / 256) as u8, (w % 256) as u8] + code(r) + code(g) + code(b) + code(e)
    &&& forall|x: int|
        #![trigger line[4 * x]]
        0 <= x < w ==> line[4 * x] == expanded(r)[x] && line[4 * x + 1] == expanded(g)[x] && line[4 * x
            + 2] == expanded(b)[x] && line[4 * x + 3] == expanded(e)[x]
}

/// Scanlines of a width that is not coded, and those that do not start as coded ones do, are the
/// bytes of their pixels.
pub proof fn other_scanlines_are_plain(s: Seq<u8>, w: int)
    requires
        1 <= w,
        s.len() >= 4 * w,
        !(8 <= w <= 0x7FFF) || s[0] != 2 || s[1] != 2 || s[2] * 256 + s[3] != w,
    ensures
        scanline(s, w) == Ok::<(Seq<u8>, Seq<u8>), HdrError>((s.take(4 * w), s.skip(4 * w))),
{
}

/// A scanline that runs from right to left is turned round pixel by pixel.
pub proof fn mirrored_scanlines_are_turned(line: Seq<u8>, w: int, x: int, k: int)
    requires
        line.len() == 4 * w,
        0 <= x < w,
        0 <= k < 4,
    ensures
        turned(line, w, true).len() == line.len(),
        turned(line, w, true)[4 * x + k] == line[4 * (w - 1 - x) + k],
        turned(line, w, false) == line,
{
    assert((4 * x + k) / 4 == x && (4 * x + k) % 4 == k);
}

/// The scanlines of a picture follow each other, all turned round or none.
pub proof fn scanlines_follow_each_other(s: Seq<u8>, w: int, n: int, mirrored: bool)
    requires
        1 <= n,
    ensures
        match scanline(s, w) {
            Ok((line, rest)) => match rows(rest, w, n - 1, mirrored) {
                Ok(more) => rows(s, w, n, mirrored) matches Ok(r) && r.len() == more.len() + 1 && r[0]
                    == turned(line, w, mirrored) && r.skip(1) == more,
                Err(e) => rows(s, w, n, mirrored) == Err::<Seq<Seq<u8>>, HdrError>(e),
            },
            Err(e) => rows(s, w, n, mirrored) == Err::<Seq<Seq<u8>>, HdrError>(e),
        },
{
    if let Ok((line, rest)) = scanline(s, w) {
        if let Ok(more) = rows(rest, w, n - 1, mirrored) {
            assert((seq![turned(line, w, mirrored)] + more).skip(1) =~= more);
        }
    }
}

/// Rows of one length, one after the other.
pub proof fn rows_are_stacked(r: Seq<Seq<u8>>, n: int, y: int, i: int)
    requires
        0 <= y < r.len(),
        0 <= i < n,
        forall|k: int| 0 <= k < r.len() ==> (#[trigger] r[k]).len() == n,
    ensures
        stacked(r).len() == n * r.len(),
        0 <= n * y + i < stacked(r).len(),
        stacked(r)[n * y + i] == r[y][i],
    decreases r.len(),
{
    let d = r.drop_last();
    lemma_stacked_len(r, n);
    lemma_stacked_len(d, n);
    assert(n * r.len() == n * d.len() + n) by (nonlinear_arith)
        requires
            r.len() == d.len() + 1,
    ;
    if y < d.len() {
        rows_are_stacked(d, n, y, i);
    }
}

proof fn lemma_stacked_len(r: Seq<Seq<u8>>, n: int)
    requires
        forall|k: int| 0 <= k < r.len() ==> (#[trigger] r[k]).len() == n,
    ensures
        stacked(r).len() == n * r.len(),
    decreases r.len(),
{
    if r.len() > 0 {
        let d = r.drop_last();
        lemma_stacked_len(d, n);
        assert(n * r.len() == n * d.len() + n) by (nonlinear_arith)
            requires
                r.len() == d.len() + 1,
        ;
    } else {
        assert(n * r.len() == 0) by (nonlinear_arith)
            requires
                r.len() == 0,
        ;
    }
}

/// The line of the size has four words: the direction and the number of the rows, then the
/// direction and the number of the columns.
pub proof fn sizes_are_rows_by_columns(line: Seq<char>, h: int, w: int)
    requires
        words(line).len() == 4,
        parsed_unsigned(words(line)[1], usize::MAX as int) == Some(h),
        parsed_unsigned(words(line)[3], usize::MAX as int) == Some(w),
        0 <= h <= usize::MAX,
        0 <= w <= usize::MAX,
    ensures
        resolution_of(line) matches Ok(res) && res.height == h && res.width == w && res.y_sign
            == words(line)[0][0] && res.x_sign == words(line)[2][0],
{
}

/// A picture whose rows go down has its first scanline on top; in any other the last is.
pub proof fn pictures_are_the_right_way_up(
    file: Seq<u8>,
    magic: Seq<char>,
    header: Seq<u8>,
    body: Seq<u8>,
    line: Seq<char>,
    pixels: Seq<u8>,
    r: Seq<Seq<u8>>,
)
    requires
        first_line(file) == Ok::<(Seq<char>, Seq<u8>), HdrError>((magic, header)),
        starts_with(magic, "#?RADIANCE"@) || starts_with(magic, "#?RGBE"@),
        after_header(header) == Ok::<Seq<u8>, HdrError>(body),
        first_line(body) == Ok::<(Seq<char>, Seq<u8>), HdrError>((line, pixels)),
        resolution_of(line) matches Ok(res) && rows(
            pixels,
            res.width as int,
            res.height as int,
            res.x_sign == '-',
        ) == Ok::<Seq<Seq<u8>>, HdrError>(r),
    ensures
        ({
            let res = resolution_of(line)->Ok_0;
            let upright = if res.y_sign == '-' {
                r
            } else {
                Seq::new(r.len(), |y: int| r[r.len() - 1 - y])
            };
            rgbe_image(file) == Ok::<(int, int, Seq<u8>), HdrError>(
                (res.width as int, res.height as int, stacked(upright)),
            )
        }),
{
    assert(r.reverse() =~= Seq::new(r.len(), |y: int| r[r.len() - 1 - y]));
}

/// A file is written with a header that any reader knows, rows from the top down and from left to
/// right, and the scanlines in the order of the rows.
pub proof fn files_are_written_top_down(w: int, h: int, pixels: Seq<u8>)
    requires
        1 <= h,
    ensures
        hdr_file(w, h, pixels) == ascii(
            "#?RADIANCE\nFORMAT=32-bit_rle_rgbe\n\n-Y "@ + decimal_text(h as nat) + " +X "@
                + decimal_text(w as nat) + "\n"@,
        ) + body_code(pixels, w, h),
        body_code(pixels, w, h) == scanline_code(pixels.take(4 * w), w) + body_code(
            pixels.skip(4 * w),
            w,
            h - 1,
        ),
        header_text(w, h).len() > 0,
{
}

} // verus!
