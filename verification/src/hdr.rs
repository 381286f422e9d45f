//! Radiance RGBE images: header, orientation, and run-length coded scanlines.
//!
//! A pixel is four bytes, three mantissas and the exponent they share. Decoding what the encoder
//! wrote gives back the pixels byte for byte.

use crate::decimal::{ascii, decimal_text, lemma_decimal_text, push_ascii, push_decimal};
use crate::text::{
    chars_of, is_space, lemma_trim_start_len, lemma_word_len, parse_usize, parsed_unsigned,
    split_words, starts_with, texts, trim, trim_end, trim_start, trimmed, utf8_text, word_len, words,
};
use vstd::prelude::*;
use vstd::utf8::{decode_utf8, valid_utf8};

verus! {

/// What can be wrong with an RGBE file.
#[derive(Clone, Copy, Debug, PartialEq, Eq, Structural)]
pub enum HdrError {
    /// The file does not start as an RGBE file does.
    BadHeader,
    /// A header line is not text.
    NotText,
    /// The header has no end.
    MissingResolution,
    /// The resolution line does not have four words.
    BadResolution,
    /// The height is not a number.
    BadHeight,
    /// The width is not a number.
    BadWidth,
    /// The file ends too early.
    UnexpectedEof,
    /// A run goes beyond the end of its scanline.
    BadRun,
}

/// An image of RGBE pixels, row by row from the top, four bytes each.
pub struct RgbeImage {
    pub width: usize,
    pub height: usize,
    pub data: Vec<u8>,
}

/// How many bytes the first line has, its line feed counted.
pub open spec fn line_len(s: Seq<u8>) -> int
    decreases s.len(),
{
    if s.len() == 0 {
        0
    } else if s[0] == 10 {
        1
    } else {
        1 + line_len(s.skip(1))
    }
}

proof fn lemma_line_len(s: Seq<u8>)
    ensures
        0 <= line_len(s) <= s.len(),
        s.len() > 0 ==> line_len(s) > 0,
    decreases s.len(),
{
    if s.len() > 0 && s[0] != 10 {
        lemma_line_len(s.skip(1));
    }
}

/// The first line as text, its line feed with it, and the bytes behind it.
pub open spec fn first_line(s: Seq<u8>) -> Result<(Seq<char>, Seq<u8>), HdrError> {
    let n = line_len(s);
    if valid_utf8(s.take(n)) {
        Ok((decode_utf8(s.take(n)), s.skip(n)))
    } else {
        Err(HdrError::NotText)
    }
}

/// What follows the first empty line.
pub open spec fn after_header(s: Seq<u8>) -> Result<Seq<u8>, HdrError>
    decreases s.len(),
{
    match first_line(s) {
        Err(e) => Err(e),
        Ok((line, rest)) => if s.len() == 0 {
            Err(HdrError::MissingResolution)
        } else if trimmed(line).len() == 0 {
            Ok(rest)
        } else if rest.len() < s.len() {
            after_header(rest)
        } else {
            Err(HdrError::MissingResolution)
        },
    }
}

/// A resolution line: the two signs and the two sizes.
pub struct Resolution {
    pub x_sign: char,
    pub y_sign: char,
    pub width: usize,
    pub height: usize,
}

/// The resolution line `line`: four words, of which the first and third give the directions by
/// their first characters, and the second and fourth the height and the width.
pub open spec fn resolution_of(line: Seq<char>) -> Result<Resolution, HdrError> {
    let w = words(line);
    if w.len() != 4 {
        Err(HdrError::BadResolution)
    } else {
        match parsed_unsigned(w[1], usize::MAX as int) {
            None => Err(HdrError::BadHeight),
            Some(height) => match parsed_unsigned(w[3], usize::MAX as int) {
                None => Err(HdrError::BadWidth),
                Some(width) => Ok(
                    Resolution {
                        x_sign: w[2][0],
                        y_sign: w[0][0],
                        width: width as usize,
                        height: height as usize,
                    },
                ),
            },
        }
    }
}

proof fn lemma_words_nonempty(s: Seq<char>)
    ensures
        forall|i: int| 0 <= i < words(s).len() ==> (#[trigger] words(s)[i]).len() > 0,
    decreases s.len(),
{
    let t = trim_start(s);
    let n = word_len(t) as int;
    lemma_trim_start_len(s);
    lemma_word_len(t);
    if t.len() > 0 {
        lemma_words_nonempty(t.skip(n));
        assert forall|i: int| 0 <= i < words(s).len() implies (#[trigger] words(s)[i]).len() > 0 by {
            if i > 0 {
                assert(words(s)[i] == words(t.skip(n))[i - 1]);
            }
        }
    }
}

/// Reads the resolution line.
pub fn parse_resolution(line: &str) -> (r: Result<Resolution, HdrError>)
    ensures
        r == resolution_of(line@),
{
    let chars = chars_of(line);
    let parts = split_words(&chars);
    proof {
        lemma_words_nonempty(line@);
        assert forall|i: int| 0 <= i < parts@.len() implies words(line@)[i] == #[trigger] parts@[i]@ by {
            assert(texts(parts@)[i] == parts@[i]@);
        }
    }
    if parts.len() != 4 {
        return Err(HdrError::BadResolution);
    }
    assert(parts@[0]@.len() > 0 && parts@[2]@.len() > 0);
    let y_sign: char = parts[0][0];
    let height: usize = match parse_usize(parts[1]) {
        Some(v) => v,
        None => {
            return Err(HdrError::BadHeight);
        },
    };
    let x_sign: char = parts[2][0];
    let width: usize = match parse_usize(parts[3]) {
        Some(v) => v,
        None => {
            return Err(HdrError::BadWidth);
        },
    };
    Ok(Resolution { x_sign, y_sign, width, height })
}

/// `n` times the byte `b`.
pub open spec fn repeat_byte(b: u8, n: int) -> Seq<u8> {
    Seq::new(n as nat, |i: int| b)
}

/// Decoding one channel of a scanline of `w` pixels: `out` is what is done already. The result is
/// the channel and the bytes behind it.
pub open spec fn unrun(s: Seq<u8>, out: Seq<u8>, w: int) -> Result<(Seq<u8>, Seq<u8>), HdrError>
    decreases s.len(),
{
    let room = w - out.len();
    if room <= 0 {
        Ok((out, s))
    } else if s.len() == 0 {
        Err(HdrError::UnexpectedEof)
    } else if s[0] > 128 {
        let count = s[0] - 128;
        if s.len() < 2 {
            Err(HdrError::UnexpectedEof)
        } else if count > room {
            Err(HdrError::BadRun)
        } else {
            unrun(s.skip(2), out + repeat_byte(s[1], count), w)
        }
    } else {
        let count = s[0] as int;
        let read = if count > room {
            room + 1
        } else {
            count
        };
        if s.len() <= read {
            Err(HdrError::UnexpectedEof)
        } else if count > room {
            Err(HdrError::BadRun)
        } else {
            unrun(s.skip(1 + count), out + s.subrange(1, 1 + count), w)
        }
    }
}

/// Four channels woven into pixels.
pub open spec fn woven(c: Seq<Seq<u8>>, w: int) -> Seq<u8> {
    Seq::new((4 * w) as nat, |i: int| c[i % 4][i / 4])
}

/// Decoding the channels from number `k` on, one after the other; `done` holds those before.
pub open spec fn channels(s: Seq<u8>, w: int, done: Seq<Seq<u8>>) -> Result<
    (Seq<Seq<u8>>, Seq<u8>),
    HdrError,
>
    decreases 4 - done.len(),
{
    if done.len() >= 4 {
        Ok((done, s))
    } else {
        match unrun(s, Seq::empty(), w) {
            Err(e) => Err(e),
            Ok((c, rest)) => channels(rest, w, done.push(c)),
        }
    }
}

/// Whether scanlines of `w` pixels are run-length coded.
pub open spec fn coded_width(w: int) -> bool {
    8 <= w <= 0x7FFF
}

/// Decoding a scanline: its pixels and the bytes behind it. A width outside the coded range, or a
/// first pixel that is not the mark of a coded scanline, means plain pixels.
pub open spec fn scanline(s: Seq<u8>, w: int) -> Result<(Seq<u8>, Seq<u8>), HdrError> {
    if coded_width(w) && s.len() < 4 {
        Err(HdrError::UnexpectedEof)
    } else if coded_width(w) && s[0] == 2 && s[1] == 2 && s[2] * 256 + s[3] == w {
        match channels(s.skip(4), w, Seq::empty()) {
            Err(e) => Err(e),
            Ok((c, rest)) => Ok((woven(c, w), rest)),
        }
    } else if s.len() < 4 * w {
        Err(HdrError::UnexpectedEof)
    } else {
        Ok((s.take(4 * w), s.skip(4 * w)))
    }
}

/// A result of a step at position `pos`, in terms of the bytes from there on.
spec fn step_at(
    bytes: Seq<u8>,
    r: Result<(Vec<u8>, usize), HdrError>,
    want: Result<(Seq<u8>, Seq<u8>), HdrError>,
) -> bool {
    match want {
        Err(e) => r == Err::<(Vec<u8>, usize), HdrError>(e),
        Ok((out, rest)) => r matches Ok((o, p)) && p <= bytes.len() && o@ == out && bytes.skip(
            p as int,
        ) == rest,
    }
}

fn read_channel(bytes: &[u8], pos: usize, w: usize) -> (r: Result<(Vec<u8>, usize), HdrError>)
    requires
        pos <= bytes@.len(),
        w <= 0x7FFF,
    ensures
        step_at(bytes@, r, unrun(bytes@.skip(pos as int), Seq::empty(), w as int)),
        r matches Ok((c, _)) ==> c@.len() == w,
{
    let mut out: Vec<u8> = Vec::new();
    let mut p: usize = pos;
    let ghost want = unrun(bytes@.skip(pos as int), Seq::empty(), w as int);
    while out.len() < w
        invariant
            p <= bytes@.len(),
            w <= 0x7FFF,
            out@.len() <= w,
            want == unrun(bytes@.skip(pos as int), Seq::empty(), w as int),
            want == unrun(bytes@.skip(p as int), out@, w as int),
        decreases bytes@.len() - p,
    {
        let ghost s = bytes@.skip(p as int);
        let ghost before = out@;
        let room: usize = w - out.len();
        let left: usize = bytes.len() - p;
        if left == 0 {
            return Err(HdrError::UnexpectedEof);
        }
        let code: u8 = bytes[p];
        if code > 128 {
            let count: usize = (code - 128) as usize;
            if left < 2 {
                return Err(HdrError::UnexpectedEof);
            }
            if count > room {
                return Err(HdrError::BadRun);
            }
            let b: u8 = bytes[p + 1];
            let mut k: usize = 0;
            while k < count
                invariant
                    k <= count,
                    out@ == before + repeat_byte(b, k as int),
                decreases count - k,
            {
                out.push(b);
                k += 1;
                assert(out@ =~= before + repeat_byte(b, k as int));
            }
            assert(before + repeat_byte(b, 0) =~= before);
            assert(s.skip(2) =~= bytes@.skip(p + 2));
            p += 2;
        } else {
            let count: usize = code as usize;
            let read: usize = if count > room {
                room + 1
            } else {
                count
            };
            if left <= read {
                return Err(HdrError::UnexpectedEof);
            }
            if count > room {
                return Err(HdrError::BadRun);
            }
            let size: usize = bytes.len();
            let mut k: usize = 0;
            while k < count
                invariant
                    k <= count,
                    p + count < size,
                    size == bytes@.len(),
                    s == bytes@.skip(p as int),
                    out@ == before + s.subrange(1, 1 + k),
                decreases count - k,
            {
                out.push(bytes[p + 1 + k]);
                k += 1;
                assert(out@ =~= before + s.subrange(1, 1 + k));
            }
            assert(before + s.subrange(1, 1) =~= before);
            assert(s.skip(1 + count) =~= bytes@.skip(p + 1 + count));
            p += 1 + count;
        }
    }
    Ok((out, p))
}

/// Reads one scanline of `w` pixels at `pos`: its bytes, and where the next one starts.
pub fn read_scanline(bytes: &[u8], pos: usize, w: usize) -> (r: Result<(Vec<u8>, usize), HdrError>)
    requires
        pos <= bytes@.len(),
    ensures
        match scanline(bytes@.skip(pos as int), w as int) {
            Err(e) => r == Err::<(Vec<u8>, usize), HdrError>(e),
            Ok((out, rest)) => r matches Ok((o, p)) && pos <= p <= bytes@.len() && o@ == out
                && bytes@.skip(p as int) == rest,
        },
{
    let ghost s = bytes@.skip(pos as int);
    let left: usize = bytes.len() - pos;
    let coded: bool = 8 <= w && w <= 0x7FFF;
    if coded {
        if left < 4 {
            return Err(HdrError::UnexpectedEof);
        }
        let width: usize = bytes[pos + 2] as usize * 256 + bytes[pos + 3] as usize;
        if bytes[pos] == 2 && bytes[pos + 1] == 2 && width == w {
            assert(s.skip(4) =~= bytes@.skip(pos + 4));
            let (c0, p0) = match read_channel(bytes, pos + 4, w) {
                Ok(x) => x,
                Err(e) => {
                    proof {
                        reveal_with_fuel(channels, 2);
                    }
                    return Err(e);
                },
            };
            let (c1, p1) = match read_channel(bytes, p0, w) {
                Ok(x) => x,
                Err(e) => {
                    proof {
                        reveal_with_fuel(channels, 3);
                    }
                    return Err(e);
                },
            };
            let (c2, p2) = match read_channel(bytes, p1, w) {
                Ok(x) => x,
                Err(e) => {
                    proof {
                        reveal_with_fuel(channels, 4);
                    }
                    return Err(e);
                },
            };
            let (c3, p3) = match read_channel(bytes, p2, w) {
                Ok(x) => x,
                Err(e) => {
                    proof {
                        reveal_with_fuel(channels, 5);
                    }
                    return Err(e);
                },
            };
            let ghost all = seq![c0@, c1@, c2@, c3@];
            proof {
                reveal_with_fuel(channels, 6);
                assert(Seq::<Seq<u8>>::empty().push(c0@).push(c1@).push(c2@).push(c3@) =~= all);
                lemma_unrun_moves(bytes@, pos + 4, w as int, p0 as int);
                lemma_unrun_moves(bytes@, p0 as int, w as int, p1 as int);
                lemma_unrun_moves(bytes@, p1 as int, w as int, p2 as int);
                lemma_unrun_moves(bytes@, p2 as int, w as int, p3 as int);
            }
            let mut out: Vec<u8> = Vec::new();
            let mut x: usize = 0;
            while x < w
                invariant
                    x <= w,
                    w <= 0x7FFF,
                    c0@.len() == w,
                    c1@.len() == w,
                    c2@.len() == w,
                    c3@.len() == w,
                    all == seq![c0@, c1@, c2@, c3@],
                    out@ == woven(all, w as int).take(4 * x),
                decreases w - x,
            {
                out.push(c0[x]);
                out.push(c1[x]);
                out.push(c2[x]);
                out.push(c3[x]);
                assert(out@ =~= woven(all, w as int).take(4 * (x + 1)));
                x += 1;
            }
            assert(out@ =~= woven(all, w as int));
            return Ok((out, p3));
        }
    }
    if w > left / 4 {
        return Err(HdrError::UnexpectedEof);
    }
    let n: usize = 4 * w;
    let size: usize = bytes.len();
    let mut out: Vec<u8> = Vec::new();
    let mut k: usize = 0;
    while k < n
        invariant
            k <= n,
            pos + n <= size,
            size == bytes@.len(),
            s == bytes@.skip(pos as int),
            out@ == s.take(k as int),
        decreases n - k,
    {
        out.push(bytes[pos + k]);
        k += 1;
        assert(out@ =~= s.take(k as int));
    }
    assert(s.skip(n as int) =~= bytes@.skip(pos + n));
    Ok((out, pos + n))
}

/// Decoding a channel does not move backwards.
proof fn lemma_unrun_moves(bytes: Seq<u8>, pos: int, w: int, p: int)
    requires
        0 <= pos <= bytes.len(),
        0 <= p <= bytes.len(),
        unrun(bytes.skip(pos), Seq::empty(), w) matches Ok((c, rest)) && rest == bytes.skip(p),
    ensures
        pos <= p,
{
    lemma_unrun_shrinks(bytes.skip(pos), Seq::empty(), w);
}

proof fn lemma_unrun_shrinks(s: Seq<u8>, out: Seq<u8>, w: int)
    ensures
        unrun(s, out, w) matches Ok((c, rest)) ==> rest.len() <= s.len(),
    decreases s.len(),
{
    let room = w - out.len();
    if room > 0 && s.len() > 0 {
        if s[0] > 128 {
            if s.len() >= 2 {
                lemma_unrun_shrinks(s.skip(2), out + repeat_byte(s[1], s[0] - 128), w);
            }
        } else if s.len() > s[0] {
            lemma_unrun_shrinks(s.skip(1 + s[0]), out + s.subrange(1, 1 + s[0]), w);
        }
    }
}

/// Decoding `n` scanlines, each put where the directions say: `done` holds the rows so far, from
/// the top if the file runs downwards, else from the bottom.
pub open spec fn rows(s: Seq<u8>, w: int, n: int, mirrored: bool) -> Result<Seq<Seq<u8>>, HdrError>
    decreases n,
{
    if n <= 0 {
        Ok(Seq::empty())
    } else {
        match scanline(s, w) {
            Err(e) => Err(e),
            Ok((line, rest)) => match rows(rest, w, n - 1, mirrored) {
                Err(e) => Err(e),
                Ok(more) => Ok(seq![turned(line, w, mirrored)] + more),
            },
        }
    }
}

/// A row of `w` pixels, from right to left if `mirrored`.
pub open spec fn turned(line: Seq<u8>, w: int, mirrored: bool) -> Seq<u8> {
    if mirrored {
        Seq::new((4 * w) as nat, |i: int| line[4 * (w - 1 - i / 4) + i % 4])
    } else {
        line
    }
}

/// Rows one below the other.
pub open spec fn stacked(r: Seq<Seq<u8>>) -> Seq<u8>
    decreases r.len(),
{
    if r.len() == 0 {
        Seq::empty()
    } else {
        stacked(r.drop_last()) + r.last()
    }
}

/// Decoding a whole file: width, height and pixels from the top row down.
pub open spec fn rgbe_image(file: Seq<u8>) -> Result<(int, int, Seq<u8>), HdrError> {
    match first_line(file) {
        Err(e) => Err(e),
        Ok((magic, rest)) => if !starts_with(magic, "#?RADIANCE"@) && !starts_with(
            magic,
            "#?RGBE"@,
        ) {
            Err(HdrError::BadHeader)
        } else {
            match after_header(rest) {
                Err(e) => Err(e),
                Ok(body) => match first_line(body) {
                    Err(e) => Err(e),
                    Ok((line, pixels)) => match resolution_of(line) {
                        Err(e) => Err(e),
                        Ok(res) => match rows(
                            pixels,
                            res.width as int,
                            res.height as int,
                            res.x_sign == '-',
                        ) {
                            Err(e) => Err(e),
                            Ok(r) => Ok(
                                (
                                    res.width as int,
                                    res.height as int,
                                    stacked(
                                        if res.y_sign == '-' {
                                            r
                                        } else {
                                            r.reverse()
                                        },
                                    ),
                                ),
                            ),
                        },
                    },
                },
            }
        },
    }
}

/// The first line at `pos`, and where the next one starts.
fn read_line(bytes: &[u8], pos: usize) -> (r: Result<(String, usize), HdrError>)
    requires
        pos <= bytes@.len(),
    ensures
        match first_line(bytes@.skip(pos as int)) {
            Err(e) => r == Err::<(String, usize), HdrError>(e),
            Ok((line, rest)) => r matches Ok((l, p)) && pos <= p <= bytes@.len() && l@ == line
                && bytes@.skip(p as int) == rest && (pos < bytes@.len() ==> pos < p),
        },
{
    let ghost s = bytes@.skip(pos as int);
    let mut p: usize = pos;
    let mut go: bool = true;
    while go && p < bytes.len()
        invariant
            pos <= p <= bytes@.len(),
            s == bytes@.skip(pos as int),
            go ==> line_len(s) == p - pos + line_len(bytes@.skip(p as int)),
            !go ==> line_len(s) == p - pos,
        decreases bytes@.len() - p,
    {
        assert(bytes@.skip(p as int).skip(1) =~= bytes@.skip(p + 1));
        if bytes[p] == 10 {
            go = false;
        }
        p += 1;
    }
    proof {
        lemma_line_len(s);
        assert(s.take(p - pos) =~= bytes@.subrange(pos as int, p as int));
        assert(s.skip(p - pos) =~= bytes@.skip(p as int));
    }
    match utf8_text(vstd::slice::slice_subrange(bytes, pos, p)) {
        Some(t) => Ok((t, p)),
        None => Err(HdrError::NotText),
    }
}

/// Where the resolution line starts.
fn skip_header(bytes: &[u8], start: usize) -> (r: Result<usize, HdrError>)
    requires
        start <= bytes@.len(),
    ensures
        match after_header(bytes@.skip(start as int)) {
            Err(e) => r == Err::<usize, HdrError>(e),
            Ok(rest) => r matches Ok(p) && p <= bytes@.len() && bytes@.skip(p as int) == rest,
        },
{
    let ghost want = after_header(bytes@.skip(start as int));
    let mut pos: usize = start;
    loop
        invariant
            pos <= bytes@.len(),
            want == after_header(bytes@.skip(start as int)),
            want == after_header(bytes@.skip(pos as int)),
        decreases bytes@.len() - pos,
    {
        let (line, p) = match read_line(bytes, pos) {
            Ok(x) => x,
            Err(e) => {
                return Err(e);
            },
        };
        if pos == bytes.len() {
            return Err(HdrError::MissingResolution);
        }
        let c = chars_of(&line);
        if trim(&c).len() == 0 {
            return Ok(p);
        }
        pos = p;
    }
}

/// Decodes an RGBE file.
pub fn decode_hdr(bytes: &[u8]) -> (r: Result<RgbeImage, HdrError>)
    ensures
        match rgbe_image(bytes@) {
            Err(e) => r == Err::<RgbeImage, HdrError>(e),
            Ok((w, h, data)) => r matches Ok(img) && img.width == w && img.height == h
                && img.data@ == data,
        },
{
    assert(bytes@.skip(0) =~= bytes@);
    let (magic, mut pos) = match read_line(bytes, 0) {
        Ok(x) => x,
        Err(e) => {
            return Err(e);
        },
    };
    let m = chars_of(&magic);
    if crate::text::after_prefix(&m, "#?RADIANCE").is_none() && crate::text::after_prefix(
        &m,
        "#?RGBE",
    ).is_none() {
        return Err(HdrError::BadHeader);
    }
    pos = match skip_header(bytes, pos) {
        Ok(p) => p,
        Err(e) => {
            return Err(e);
        },
    };
    let (line, start) = match read_line(bytes, pos) {
        Ok(x) => x,
        Err(e) => {
            return Err(e);
        },
    };
    let res = match parse_resolution(&line) {
        Ok(x) => x,
        Err(e) => {
            return Err(e);
        },
    };
    let w: usize = res.width;
    let h: usize = res.height;
    let mirrored: bool = res.x_sign == '-';
    let down: bool = res.y_sign == '-';
    let lines = match read_rows(bytes, start, w, h, mirrored) {
        Ok(x) => x,
        Err(e) => {
            return Err(e);
        },
    };
    let ghost all = row_views(lines@);
    let mut data: Vec<u8> = Vec::new();
    let mut y: usize = 0;
    let ghost order = if down {
        all
    } else {
        all.reverse()
    };
    assert(order.take(0) =~= Seq::<Seq<u8>>::empty());
    while y < h
        invariant
            y <= h,
            lines@.len() == h,
            all == row_views(lines@),
            order == (if down {
                all
            } else {
                all.reverse()
            }),
            data@ == stacked(order.take(y as int)),
        decreases h - y,
    {
        let from: usize = if down {
            y
        } else {
            h - 1 - y
        };
        let ghost before = data@;
        let mut k: usize = 0;
        assert(before + lines@[from as int]@.take(0) =~= before);
        while k < lines[from].len()
            invariant
                from < lines@.len(),
                k <= lines@[from as int]@.len(),
                data@ == before + lines@[from as int]@.take(k as int),
            decreases lines@[from as int]@.len() - k,
        {
            data.push(lines[from][k]);
            k += 1;
            assert(data@ =~= before + lines@[from as int]@.take(k as int));
        }
        proof {
            assert(lines@[from as int]@.take(k as int) =~= lines@[from as int]@);
            assert(order.take(y + 1).drop_last() =~= order.take(y as int));
            assert(order[y as int] == lines@[from as int]@);
        }
        y += 1;
    }
    assert(order.take(y as int) =~= order);
    Ok(RgbeImage { width: w, height: h, data })
}

/// The bytes of each row.
pub open spec fn row_views(v: Seq<Vec<u8>>) -> Seq<Seq<u8>> {
    v.map_values(|x: Vec<u8>| x@)
}

proof fn lemma_scanline_len(s: Seq<u8>, w: int)
    requires
        0 <= w,
    ensures
        scanline(s, w) matches Ok((line, _)) ==> line.len() == 4 * w,
{
}

fn read_rows(bytes: &[u8], start: usize, w: usize, h: usize, mirrored: bool) -> (r: Result<
    Vec<Vec<u8>>,
    HdrError,
>)
    requires
        start <= bytes@.len(),
    ensures
        match rows(bytes@.skip(start as int), w as int, h as int, mirrored) {
            Err(e) => r == Err::<Vec<Vec<u8>>, HdrError>(e),
            Ok(all) => r matches Ok(v) && row_views(v@) == all && v@.len() == h,
        },
{
    let ghost want = rows(bytes@.skip(start as int), w as int, h as int, mirrored);
    let mut v: Vec<Vec<u8>> = Vec::new();
    let mut pos: usize = start;
    let mut y: usize = 0;
    proof {
        lemma_rows_prefixed(want, Seq::empty());
    }
    while y < h
        invariant
            y <= h,
            pos <= bytes@.len(),
            v@.len() == y,
            want == rows(bytes@.skip(start as int), w as int, h as int, mirrored),
            want == prefixed(
                row_views(v@),
                rows(bytes@.skip(pos as int), w as int, h - y, mirrored),
            ),
        decreases h - y,
    {
        let ghost s = bytes@.skip(pos as int);
        let (line, p) = match read_scanline(bytes, pos, w) {
            Ok(x) => x,
            Err(e) => {
                return Err(e);
            },
        };
        proof {
            lemma_scanline_len(s, w as int);
        }
        let row: Vec<u8> = turn(line, w, mirrored);
        let ghost before = v@;
        v.push(row);
        pos = p;
        y += 1;
        proof {
            assert(row_views(v@) =~= row_views(before).push(row@));
            let rest = rows(bytes@.skip(pos as int), w as int, h - y, mirrored);
            match rest {
                Err(e) => {},
                Ok(more) => {
                    assert(row_views(before) + (seq![row@] + more) =~= row_views(v@) + more);
                },
            }
        }
    }
    proof {
        assert(row_views(v@) + Seq::<Seq<u8>>::empty() =~= row_views(v@));
    }
    Ok(v)
}

/// Rows put in front of the rows of a result.
pub open spec fn prefixed(done: Seq<Seq<u8>>, r: Result<Seq<Seq<u8>>, HdrError>) -> Result<
    Seq<Seq<u8>>,
    HdrError,
> {
    match r {
        Err(e) => Err(e),
        Ok(more) => Ok(done + more),
    }
}

proof fn lemma_rows_prefixed(r: Result<Seq<Seq<u8>>, HdrError>, none: Seq<Seq<u8>>)
    requires
        none.len() == 0,
    ensures
        prefixed(none, r) == r,
{
    if let Ok(more) = r {
        assert(none + more =~= more);
    }
}

fn turn(line: Vec<u8>, w: usize, mirrored: bool) -> (r: Vec<u8>)
    requires
        line@.len() == 4 * w,
    ensures
        r@ == turned(line@, w as int, mirrored),
{
    if !mirrored {
        return line;
    }
    let n: usize = line.len();
    let mut r: Vec<u8> = Vec::new();
    let mut i: usize = 0;
    while i < n
        invariant
            i <= n,
            n == line@.len(),
            n == 4 * w,
            r@ == turned(line@, w as int, true).take(i as int),
        decreases n - i,
    {
        r.push(line[4 * (w - 1 - i / 4) + i % 4]);
        i += 1;
        assert(r@ =~= turned(line@, w as int, true).take(i as int));
    }
    assert(r@ =~= turned(line@, w as int, true));
    r
}


/// How long a run of equal bytes starts at `x`, at most 127, with `n` of them known already.
pub open spec fn run_len(c: Seq<u8>, x: int, n: int) -> int
    decreases 127 - n,
{
    if x + n < c.len() && n < 127 && c[x + n] == c[x] {
        run_len(c, x, n + 1)
    } else {
        n
    }
}

/// How many bytes from `x` on are written as they are, at most 128, with `n` of them known
/// already: up to the next run of four or more.
pub open spec fn literal_len(c: Seq<u8>, x: int, n: int) -> int
    decreases 128 - n,
{
    if x + n < c.len() && n < 128 && run_len(c, x + n, 1) < 4 {
        literal_len(c, x, n + 1)
    } else {
        n
    }
}

pub proof fn lemma_run_len(c: Seq<u8>, x: int, n: int)
    requires
        0 <= x,
        1 <= n <= 127,
        x + n <= c.len(),
        forall|i: int| x <= i < x + n ==> c[i] == c[x],
    ensures
        n <= run_len(c, x, n) <= 127,
        x + run_len(c, x, n) <= c.len(),
        forall|i: int| x <= i < x + run_len(c, x, n) ==> c[i] == c[x],
    decreases 127 - n,
{
    if x + n < c.len() && n < 127 && c[x + n] == c[x] {
        lemma_run_len(c, x, n + 1);
    }
}

pub proof fn lemma_literal_len(c: Seq<u8>, x: int, n: int)
    requires
        0 <= x,
        0 <= n <= 128,
        x + n <= c.len(),
    ensures
        n <= literal_len(c, x, n) <= 128,
        x + literal_len(c, x, n) <= c.len(),
    decreases 128 - n,
{
    if x + n < c.len() && n < 128 && run_len(c, x + n, 1) < 4 {
        lemma_literal_len(c, x, n + 1);
    }
}

/// One channel from `x` on, coded: runs of four or more as a count above 128 and the byte, the
/// rest as a count and the bytes.
pub open spec fn channel_code(c: Seq<u8>, x: int) -> Seq<u8>
    decreases c.len() - x,
{
    if x >= c.len() {
        Seq::empty()
    } else {
        let r = run_len(c, x, 1);
        let n = literal_len(c, x, 0);
        if 4 <= r <= c.len() - x {
            seq![(128 + r) as u8, c[x]] + channel_code(c, x + r)
        } else if 0 < n <= c.len() - x {
            seq![n as u8] + c.subrange(x, x + n) + channel_code(c, x + n)
        } else {
            Seq::empty()
        }
    }
}

/// Channel `k` of a scanline.
pub open spec fn channel_of(line: Seq<u8>, w: int, k: int) -> Seq<u8> {
    Seq::new(w as nat, |x: int| line[4 * x + k])
}

/// A scanline as written.
pub open spec fn scanline_code(line: Seq<u8>, w: int) -> Seq<u8> {
    if coded_width(w) {
        seq![2u8, 2, (w / 256) as u8, (w % 256) as u8] + channel_code(channel_of(line, w, 0), 0)
            + channel_code(channel_of(line, w, 1), 0) + channel_code(channel_of(line, w, 2), 0)
            + channel_code(channel_of(line, w, 3), 0)
    } else {
        line
    }
}

/// The first `h` scanlines of `pixels` as written.
pub open spec fn body_code(pixels: Seq<u8>, w: int, h: int) -> Seq<u8>
    decreases h,
{
    if h <= 0 {
        Seq::empty()
    } else {
        scanline_code(pixels.take(4 * w), w) + body_code(pixels.skip(4 * w), w, h - 1)
    }
}

/// The header lines.
pub open spec fn header_text(w: int, h: int) -> Seq<char> {
    "#?RADIANCE\nFORMAT=32-bit_rle_rgbe\n\n-Y "@ + decimal_text(h as nat) + " +X "@ + decimal_text(
        w as nat,
    ) + "\n"@
}

/// The file of an image of `w` by `h` pixels.
pub open spec fn hdr_file(w: int, h: int, pixels: Seq<u8>) -> Seq<u8> {
    ascii(header_text(w, h)) + body_code(pixels, w, h)
}

/// Decoding a channel gives back what was coded.
proof fn lemma_unrun_code(c: Seq<u8>, x: int, rest: Seq<u8>)
    requires
        0 <= x <= c.len(),
    ensures
        unrun(channel_code(c, x) + rest, c.take(x), c.len() as int) == Ok::<
            (Seq<u8>, Seq<u8>),
            HdrError,
        >((c, rest)),
    decreases c.len() - x,
{
    let s = channel_code(c, x) + rest;
    if x >= c.len() {
        assert(c.take(x) =~= c);
        assert(s =~= rest);
    } else {
        lemma_run_len(c, x, 1);
        lemma_literal_len(c, x, 0);
        let r = run_len(c, x, 1);
        let n = literal_len(c, x, 0);
        if 4 <= r {
            assert(s.skip(2) =~= channel_code(c, x + r) + rest);
            assert(c.take(x) + repeat_byte(c[x], r) =~= c.take(x + r));
            lemma_unrun_code(c, x + r, rest);
        } else {
            lemma_literal_len(c, x, 1);
            assert(n >= 1);
            assert(s.skip(1 + n) =~= channel_code(c, x + n) + rest);
            assert(s.subrange(1, 1 + n) =~= c.subrange(x, x + n));
            assert(c.take(x) + c.subrange(x, x + n) =~= c.take(x + n));
            lemma_unrun_code(c, x + n, rest);
        }
    }
}

/// Decoding a scanline gives back the pixels, whatever follows it.
pub proof fn scanline_round_trip(line: Seq<u8>, w: int, rest: Seq<u8>)
    requires
        0 <= w,
        line.len() == 4 * w,
    ensures
        scanline(scanline_code(line, w) + rest, w) == Ok::<(Seq<u8>, Seq<u8>), HdrError>(
            (line, rest),
        ),
{
    let s = scanline_code(line, w) + rest;
    if coded_width(w) {
        let c0 = channel_of(line, w, 0);
        let c1 = channel_of(line, w, 1);
        let c2 = channel_of(line, w, 2);
        let c3 = channel_of(line, w, 3);
        let r3 = channel_code(c3, 0) + rest;
        let r2 = channel_code(c2, 0) + r3;
        let r1 = channel_code(c1, 0) + r2;
        let r0 = channel_code(c0, 0) + r1;
        assert(s.skip(4) =~= r0);
        let none = Seq::<u8>::empty();
        assert(c0.take(0) =~= none && c1.take(0) =~= none && c2.take(0) =~= none && c3.take(0)
            =~= none);
        lemma_unrun_code(c0, 0, r1);
        lemma_unrun_code(c1, 0, r2);
        lemma_unrun_code(c2, 0, r3);
        lemma_unrun_code(c3, 0, rest);
        reveal_with_fuel(channels, 6);
        let all = seq![c0, c1, c2, c3];
        assert(Seq::<Seq<u8>>::empty().push(c0).push(c1).push(c2).push(c3) =~= all);
        assert(woven(all, w) =~= line);
    } else {
        assert(s.take(4 * w) =~= line);
        assert(s.skip(4 * w) =~= rest);
    }
}

/// The rows of an image.
spec fn image_rows(pixels: Seq<u8>, w: int, h: int) -> Seq<Seq<u8>>
    decreases h,
{
    if h <= 0 {
        Seq::empty()
    } else {
        seq![pixels.take(4 * w)] + image_rows(pixels.skip(4 * w), w, h - 1)
    }
}

proof fn lemma_rows_code(pixels: Seq<u8>, w: int, h: int, rest: Seq<u8>)
    requires
        0 <= w,
        0 <= h,
        pixels.len() == 4 * w * h,
    ensures
        rows(body_code(pixels, w, h) + rest, w, h, false) == Ok::<Seq<Seq<u8>>, HdrError>(
            image_rows(pixels, w, h),
        ),
        stacked(image_rows(pixels, w, h)) == pixels,
    decreases h,
{
    if h > 0 {
        let line = pixels.take(4 * w);
        let more = pixels.skip(4 * w);
        assert(4 * w * h == 4 * w * (h - 1) + 4 * w) by (nonlinear_arith);
        assert(0 <= 4 * w * (h - 1)) by (nonlinear_arith)
            requires
                0 <= w,
                1 <= h,
        ;
        let tail = body_code(more, w, h - 1) + rest;
        assert(body_code(pixels, w, h) + rest =~= scanline_code(line, w) + tail);
        scanline_round_trip(line, w, tail);
        lemma_rows_code(more, w, h - 1, rest);
        lemma_stacked_front(line, image_rows(more, w, h - 1));
        assert(line + more =~= pixels);
    } else {
        assert(4 * w * h == 0) by (nonlinear_arith)
            requires
                h == 0,
        ;
        assert(pixels =~= Seq::<u8>::empty());
    }
}

proof fn lemma_stacked_front(line: Seq<u8>, r: Seq<Seq<u8>>)
    ensures
        stacked(seq![line] + r) == line + stacked(r),
    decreases r.len(),
{
    if r.len() == 0 {
        reveal_with_fuel(stacked, 2);
        assert((seq![line] + r) =~= seq![line]);
        assert(seq![line].drop_last() =~= Seq::<Seq<u8>>::empty());
        assert(stacked(seq![line]) =~= line);
        assert(line + stacked(r) =~= line);
    } else {
        assert((seq![line] + r).drop_last() =~= seq![line] + r.drop_last());
        lemma_stacked_front(line, r.drop_last());
        assert(stacked(seq![line] + r) =~= line + stacked(r));
    }
}

spec fn plain(s: Seq<char>) -> bool {
    forall|i: int| 0 <= i < s.len() ==> (#[trigger] s[i]) as u32 <= 127 && s[i] as u32 != 10
}

proof fn lemma_ascii_text(s: Seq<char>)
    requires
        forall|i: int| 0 <= i < s.len() ==> (#[trigger] s[i]) as u32 <= 127,
    ensures
        valid_utf8(ascii(s)),
        decode_utf8(ascii(s)) == s,
    decreases s.len(),
{
    let b = ascii(s);
    if s.len() > 0 {
        let t = s.skip(1);
        lemma_ascii_text(t);
        let b0: u8 = b[0];
        assert(s[0] as u32 <= 127);
        assert(b0 == (s[0] as u32) as u8);
        assert(b0 & 0x7F == b0) by (bit_vector)
            requires
                b0 <= 0x7F,
        ;
        vstd::utf8::char_u32_cast(s[0], b0 as u32);
        assert(vstd::utf8::pop_first_scalar(b) =~= ascii(t));
        assert(decode_utf8(b) =~= seq![s[0]] + t);
        assert(seq![s[0]] + t =~= s);
    } else {
        assert(decode_utf8(b) =~= s);
    }
}

/// A plain line reads back as itself, its line feed with it.
proof fn lemma_plain_line(l: Seq<char>, rest: Seq<u8>)
    requires
        plain(l),
    ensures
        first_line(ascii(l.push('\n')) + rest) == Ok::<(Seq<char>, Seq<u8>), HdrError>(
            (l.push('\n'), rest),
        ),
{
    let b = ascii(l.push('\n'));
    let s = b + rest;
    lemma_plain_line_len(l, rest);
    assert(s.take(b.len() as int) =~= b);
    assert(s.skip(b.len() as int) =~= rest);
    lemma_ascii_text(l.push('\n'));
}

proof fn lemma_plain_line_len(l: Seq<char>, rest: Seq<u8>)
    requires
        plain(l),
    ensures
        line_len(ascii(l.push('\n')) + rest) == l.len() + 1,
    decreases l.len(),
{
    let s = ascii(l.push('\n')) + rest;
    assert(s[0] == (l.push('\n')[0] as u32) as u8);
    if l.len() > 0 {
        let t = l.skip(1);
        assert(plain(t)) by {
            assert forall|i: int| 0 <= i < t.len() implies (#[trigger] t[i]) as u32 <= 127 && t[i]
                as u32 != 10 by {
                assert(t[i] == l[i + 1]);
            }
        }
        assert(l[0] as u32 <= 127 && l[0] as u32 != 10);
        assert((l[0] as u32) as u8 != 10);
        lemma_plain_line_len(t, rest);
        assert(s.skip(1) =~= ascii(t.push('\n')) + rest);

    } else {
        assert(s[0] == 10);
    }
}

spec fn spaceless(t: Seq<char>) -> bool {
    forall|i: int| 0 <= i < t.len() ==> !is_space(#[trigger] t[i])
}

proof fn lemma_word_then(t: Seq<char>, c: char, rest: Seq<char>)
    requires
        spaceless(t),
        is_space(c),
    ensures
        word_len(t.push(c) + rest) == t.len(),
    decreases t.len(),
{
    let s = t.push(c) + rest;
    if t.len() > 0 {
        let u = t.skip(1);
        assert(spaceless(u)) by {
            assert forall|i: int| 0 <= i < u.len() implies !is_space(#[trigger] u[i]) by {
                assert(u[i] == t[i + 1]);
            }
        }
        lemma_word_then(u, c, rest);
        assert(s.skip(1) =~= u.push(c) + rest);
        assert(!is_space(t[0]));
    }
}

proof fn lemma_words_cons(t: Seq<char>, c: char, rest: Seq<char>)
    requires
        t.len() > 0,
        spaceless(t),
        is_space(c),
    ensures
        words(t.push(c) + rest) == seq![t] + words(rest),
{
    let s = t.push(c) + rest;
    assert(!is_space(t[0]));
    assert(s[0] == t[0]);
    lemma_word_then(t, c, rest);
    assert(trim_start(s) == s);
    assert(s.take(t.len() as int) =~= t);
    let u = s.skip(t.len() as int);
    assert(u =~= seq![c] + rest);
    assert(u.skip(1) =~= rest);
    assert(trim_start(u) == trim_start(rest));
    lemma_trim_start_len(rest);
    lemma_trim_start_len(u);
    lemma_word_len(trim_start(rest));
    assert(words(u) == words(rest));
}

proof fn lemma_decimal_plain(n: nat)
    ensures
        plain(decimal_text(n)),
        spaceless(decimal_text(n)),
        decimal_text(n).len() > 0,
{
    lemma_decimal_text(n);
    let d = decimal_text(n);
    assert forall|i: int| 0 <= i < d.len() implies (#[trigger] d[i]) as u32 <= 127 && d[i] as u32 != 10
        && !is_space(d[i]) by {
        assert(crate::text::is_digit(d[i]));
    }
}

/// The header lines, taken apart.
proof fn lemma_header_lines(w: int, h: int)
    ensures
        header_text(w, h) == "#?RADIANCE"@.push('\n') + ("FORMAT=32-bit_rle_rgbe"@.push('\n') + (
        Seq::<char>::empty().push('\n') + resolution_text(w, h).push('\n'))),
{
    reveal_strlit("#?RADIANCE\nFORMAT=32-bit_rle_rgbe\n\n-Y ");
    reveal_strlit("#?RADIANCE");
    reveal_strlit("FORMAT=32-bit_rle_rgbe");
    reveal_strlit("-Y");
    reveal_strlit("+X");
    reveal_strlit(" +X ");
    reveal_strlit("\n");
    assert(header_text(w, h) =~= "#?RADIANCE"@.push('\n') + ("FORMAT=32-bit_rle_rgbe"@.push('\n')
        + (Seq::<char>::empty().push('\n') + resolution_text(w, h).push('\n'))));
}

spec fn resolution_text(w: int, h: int) -> Seq<char> {
    "-Y"@.push(' ') + (decimal_text(h as nat).push(' ') + ("+X"@.push(' ') + decimal_text(
        w as nat,
    )))
}

proof fn lemma_resolution(w: int, h: int)
    requires
        0 <= w <= usize::MAX,
        0 <= h <= usize::MAX,
    ensures
        plain(resolution_text(w, h)),
        resolution_of(resolution_text(w, h).push('\n')) == Ok::<Resolution, HdrError>(
            Resolution { x_sign: '+', y_sign: '-', width: w as usize, height: h as usize },
        ),
{
    reveal_strlit("-Y");
    reveal_strlit("+X");
    let dh = decimal_text(h as nat);
    let dw = decimal_text(w as nat);
    lemma_decimal_plain(h as nat);
    lemma_decimal_plain(w as nat);
    lemma_decimal_text(h as nat);
    lemma_decimal_text(w as nat);
    let none = Seq::<char>::empty();
    let l3 = dw.push('\n') + none;
    let l2 = "+X"@.push(' ') + l3;
    let l1 = dh.push(' ') + l2;
    let l0 = "-Y"@.push(' ') + l1;
    assert(resolution_text(w, h).push('\n') =~= l0);
    assert(spaceless("-Y"@));
    assert(spaceless("+X"@));
    lemma_words_cons(dw, '\n', none);
    lemma_words_cons("+X"@, ' ', l3);
    lemma_words_cons(dh, ' ', l2);
    lemma_words_cons("-Y"@, ' ', l1);
    assert(words(none) =~= Seq::<Seq<char>>::empty());
    assert(words(l0) =~= seq!["-Y"@, dh, "+X"@, dw]);
    assert(crate::text::is_digit(dh[0]));
    assert(crate::text::is_digit(dw[0]));
    let t = resolution_text(w, h);
    assert forall|i: int| 0 <= i < t.len() implies (#[trigger] t[i]) as u32 <= 127 && t[i]
        as u32 != 10 by {
        let a = "-Y"@.len() + 1;
        if i < a {
        } else if i < a + dh.len() {
            assert(t[i] == dh[i - a]);
        } else if i < a + dh.len() + 1 + "+X"@.len() + 1 {
        } else {
            assert(t[i] == dw[i - (a + dh.len() + 1 + "+X"@.len() + 1)]);
        }
    }
}

proof fn lemma_trim_keeps(s: Seq<char>)
    requires
        s.len() > 0,
        !is_space(s[0]),
    ensures
        trimmed(s).len() > 0,
{
    lemma_trim_end_keeps(s);
}

proof fn lemma_trim_end_keeps(s: Seq<char>)
    requires
        s.len() > 0,
        !is_space(s[0]),
    ensures
        trim_end(s).len() > 0,
    decreases s.len(),
{
    if is_space(s.last()) {
        assert(s.len() > 1);
        lemma_trim_end_keeps(s.drop_last());
    }
}

proof fn lemma_ascii_concat(a: Seq<char>, b: Seq<char>)
    ensures
        ascii(a + b) == ascii(a) + ascii(b),
{
    assert(ascii(a + b) =~= ascii(a) + ascii(b));
}

/// Decoding the file of an image gives back its size and its pixels, byte for byte.
pub proof fn hdr_round_trip(w: int, h: int, pixels: Seq<u8>)
    requires
        0 <= w <= usize::MAX,
        0 <= h <= usize::MAX,
        pixels.len() == 4 * w * h,
    ensures
        rgbe_image(hdr_file(w, h, pixels)) == Ok::<(int, int, Seq<u8>), HdrError>((w, h, pixels)),
{
    let l0 = "#?RADIANCE"@;
    let l1 = "FORMAT=32-bit_rle_rgbe"@;
    let l2 = Seq::<char>::empty();
    let l3 = resolution_text(w, h);
    let body = body_code(pixels, w, h);
    let r3 = ascii(l3.push('\n')) + body;
    let r2 = ascii(l2.push('\n')) + r3;
    let r1 = ascii(l1.push('\n')) + r2;
    let r0 = ascii(l0.push('\n')) + r1;
    lemma_header_lines(w, h);
    lemma_ascii_concat(l2.push('\n'), l3.push('\n'));
    lemma_ascii_concat(l1.push('\n'), l2.push('\n') + l3.push('\n'));
    lemma_ascii_concat(l0.push('\n'), l1.push('\n') + (l2.push('\n') + l3.push('\n')));
    assert(hdr_file(w, h, pixels) =~= r0);
    reveal_strlit("#?RADIANCE");
    reveal_strlit("FORMAT=32-bit_rle_rgbe");
    lemma_resolution(w, h);
    lemma_plain_line(l0, r1);
    lemma_plain_line(l1, r2);
    lemma_plain_line(l2, r3);
    lemma_plain_line(l3, body);
    assert(l0.push('\n').take(l0.len() as int) =~= l0);
    lemma_trim_keeps(l1.push('\n'));
    let e = l2.push('\n');
    assert(e.skip(1) =~= l2);
    assert(trim_start(l2) == l2);
    assert(trim_start(e) == l2);
    assert(trimmed(e).len() == 0);
    assert(after_header(r2) == Ok::<Seq<u8>, HdrError>(r3));
    assert(after_header(r1) == Ok::<Seq<u8>, HdrError>(r3));
    lemma_rows_code(pixels, w, h, Seq::empty());
    assert(body + Seq::<u8>::empty() =~= body);
}

fn run_at(c: &Vec<u8>, x: usize) -> (n: usize)
    requires
        x < c@.len(),
    ensures
        n == run_len(c@, x as int, 1),
        1 <= n <= 127,
        x + n <= c@.len(),
{
    let size: usize = c.len();
    let mut n: usize = 1;
    while n < 127 && n < size - x && c[x + n] == c[x]
        invariant
            1 <= n <= 127,
            x + n <= size,
            size == c@.len(),
            run_len(c@, x as int, 1) == run_len(c@, x as int, n as int),
        decreases 127 - n,
    {
        n += 1;
    }
    n
}

fn write_channel(out: &mut Vec<u8>, c: &Vec<u8>)
    ensures
        final(out)@ == old(out)@ + channel_code(c@, 0),
{
    let ghost start = out@;
    let size: usize = c.len();
    let mut x: usize = 0;
    while x < size
        invariant
            x <= size,
            size == c@.len(),
            out@ + channel_code(c@, x as int) == start + channel_code(c@, 0),
        decreases size - x,
    {
        let ghost before = out@;
        let r: usize = run_at(c, x);
        if r >= 4 {
            out.push((128 + r) as u8);
            out.push(c[x]);
            proof {
                assert(out@ + channel_code(c@, x + r) =~= before + (seq![
                    (128 + r) as u8,
                    c@[x as int],
                ] + channel_code(c@, x + r)));
            }
            x += r;
        } else {
            let mut n: usize = 0;
            let mut go: bool = true;
            while go && n < 128 && n < size - x
                invariant
                    n <= 128,
                    x + n <= size,
                    size == c@.len(),
                    go ==> literal_len(c@, x as int, 0) == literal_len(c@, x as int, n as int),
                    !go ==> literal_len(c@, x as int, 0) == n,
                decreases 128 - n + (if go {
                    1int
                } else {
                    0
                }),
            {
                if run_at(c, x + n) >= 4 {
                    go = false;
                } else {
                    n += 1;
                }
            }
            proof {
                lemma_literal_len(c@, x as int, 1);
                assert(n == literal_len(c@, x as int, 0));
            }
            out.push(n as u8);
            let mut k: usize = 0;
            while k < n
                invariant
                    k <= n,
                    x + n <= c@.len(),
                    x + n <= size,
                    out@ == before.push(n as u8) + c@.subrange(x as int, x + k),
                decreases n - k,
            {
                out.push(c[x + k]);
                k += 1;
                assert(out@ =~= before.push(n as u8) + c@.subrange(x as int, x + k));
            }
            proof {
                assert(out@ + channel_code(c@, x + n) =~= before + (seq![n as u8] + c@.subrange(
                    x as int,
                    x + n,
                ) + channel_code(c@, x + n)));
            }
            x += n;
        }
    }
    assert(out@ + Seq::<u8>::empty() =~= out@);
}

fn channel(line: &[u8], w: usize, k: usize) -> (c: Vec<u8>)
    requires
        line@.len() == 4 * w,
        k < 4,
    ensures
        c@ == channel_of(line@, w as int, k as int),
{
    let size: usize = line.len();
    let mut c: Vec<u8> = Vec::new();
    let mut x: usize = 0;
    while x < w
        invariant
            x <= w,
            k < 4,
            size == line@.len(),
            size == 4 * w,
            c@ == channel_of(line@, w as int, k as int).take(x as int),
        decreases w - x,
    {
        c.push(line[4 * x + k]);
        x += 1;
        assert(c@ =~= channel_of(line@, w as int, k as int).take(x as int));
    }
    assert(c@ =~= channel_of(line@, w as int, k as int));
    c
}

/// Appends a scanline of `w` pixels.
pub fn write_scanline(out: &mut Vec<u8>, scanline: &[u8], w: usize)
    requires
        scanline@.len() == 4 * w,
    ensures
        final(out)@ == old(out)@ + scanline_code(scanline@, w as int),
{
    let ghost start = out@;
    if w < 8 || w > 0x7FFF {
        let mut i: usize = 0;
        while i < scanline.len()
            invariant
                i <= scanline@.len(),
                out@ == start + scanline@.take(i as int),
            decreases scanline@.len() - i,
        {
            out.push(scanline[i]);
            i += 1;
            assert(out@ =~= start + scanline@.take(i as int));
        }
        assert(scanline@.take(i as int) =~= scanline@);
        return;
    }
    out.push(2);
    out.push(2);
    out.push((w / 256) as u8);
    out.push((w % 256) as u8);
    let c0 = channel(scanline, w, 0);
    write_channel(out, &c0);
    let c1 = channel(scanline, w, 1);
    write_channel(out, &c1);
    let c2 = channel(scanline, w, 2);
    write_channel(out, &c2);
    let c3 = channel(scanline, w, 3);
    write_channel(out, &c3);
    assert(out@ =~= start + scanline_code(scanline@, w as int));
}

/// The file of an image of `w` by `h` RGBE pixels.
pub fn encode_hdr(w: usize, h: usize, pixels: &[u8]) -> (out: Vec<u8>)
    requires
        pixels@.len() == 4 * w * h,
    ensures
        out@ == hdr_file(w as int, h as int, pixels@),
{
    let mut out: Vec<u8> = Vec::new();
    let a = chars_of("#?RADIANCE\nFORMAT=32-bit_rle_rgbe\n\n-Y ");
    push_ascii(&mut out, &a);
    push_decimal(&mut out, h as u64);
    let b = chars_of(" +X ");
    push_ascii(&mut out, &b);
    push_decimal(&mut out, w as u64);
    let c = chars_of("\n");
    push_ascii(&mut out, &c);
    assert(out@ =~= ascii(header_text(w as int, h as int)));
    let ghost head = out@;
    let size: usize = pixels.len();
    let mut y: usize = 0;
    let mut at: usize = 0;
    assert(pixels@.skip(0) =~= pixels@);
    while y < h
        invariant
            y <= h,
            at <= size,
            size == pixels@.len(),
            size - at == 4 * w * (h - y),
            out@ + body_code(pixels@.skip(at as int), w as int, h - y) == head + body_code(
                pixels@,
                w as int,
                h as int,
            ),
        decreases h - y,
    {
        proof {
            assert(4 * w * (h - y) == 4 * w * (h - y - 1) + 4 * w) by (nonlinear_arith);
            assert(0 <= 4 * w * (h - y - 1)) by (nonlinear_arith)
                requires
                    0 <= w,
                    y + 1 <= h,
            ;
        }
        let ghost before = out@;
        let ghost s = pixels@.skip(at as int);
        let line = vstd::slice::slice_subrange(pixels, at, at + 4 * w);
        write_scanline(&mut out, line, w);
        proof {
            assert(line@ =~= s.take(4 * w));
            assert(s.skip(4 * w) =~= pixels@.skip(at + 4 * w));
            let more = body_code(s.skip(4 * w), w as int, h - y - 1);
            assert(out@ + more =~= before + (scanline_code(line@, w as int) + more));
        }
        at += 4 * w;
        y += 1;
    }
    assert(out@ + Seq::<u8>::empty() =~= out@);
    out
}

} // verus!
