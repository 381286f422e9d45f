//! RGBE: what is wrong with a file is told as it is, and runs are coded as runs.

use crate::hdr::{
    after_header, channel_code, first_line, lemma_run_len, line_len, resolution_of, rgbe_image,
    rows, run_len, scanline, unrun, HdrError, Resolution,
};
use crate::text::{parsed_unsigned, starts_with, trimmed, words};
use vstd::prelude::*;

verus! {

/// Pixels that do not come to their end, and runs that go beyond it, are errors of their own.
pub proof fn runs_must_fit(s: Seq<u8>, out: Seq<u8>, w: int)
    requires
        out.len() < w,
    ensures
        s.len() == 0 ==> unrun(s, out, w) == Err::<(Seq<u8>, Seq<u8>), HdrError>(
            HdrError::UnexpectedEof,
        ),
        s.len() == 1 && s[0] > 0 ==> unrun(s, out, w) == Err::<(Seq<u8>, Seq<u8>), HdrError>(
            HdrError::UnexpectedEof,
        ),
        s.len() >= 2 && s[0] > 128 && s[0] - 128 > w - out.len() ==> unrun(s, out, w) == Err::<
            (Seq<u8>, Seq<u8>),
            HdrError,
        >(HdrError::BadRun),
        0 < s[0] <= 128 && s.len() > s[0] && s[0] > w - out.len() ==> unrun(s, out, w) == Err::<
            (Seq<u8>, Seq<u8>),
            HdrError,
        >(HdrError::BadRun),
        0 < s[0] <= 128 && s[0] <= w - out.len() && 0 < s.len() <= s[0] ==> unrun(s, out, w) == Err::<
            (Seq<u8>, Seq<u8>),
            HdrError,
        >(HdrError::UnexpectedEof),
{
}

/// A scanline that is cut short is an error.
pub proof fn scanlines_must_be_whole(s: Seq<u8>, w: int)
    requires
        w > 0,
    ensures
        s.len() < 4 ==> scanline(s, w) == Err::<(Seq<u8>, Seq<u8>), HdrError>(
            HdrError::UnexpectedEof,
        ),
        (w < 8 || w > 0x7FFF) && s.len() < 4 * w ==> scanline(s, w) == Err::<
            (Seq<u8>, Seq<u8>),
            HdrError,
        >(HdrError::UnexpectedEof),
{
}

/// An error in a scanline is that of the picture.
pub proof fn errors_are_passed_on(s: Seq<u8>, w: int, n: int, mirrored: bool)
    requires
        n > 0,
        scanline(s, w) is Err,
    ensures
        rows(s, w, n, mirrored) == Err::<Seq<Seq<u8>>, HdrError>(scanline(s, w)->Err_0),
{
}

/// The size needs four words, then a height, then a width; the first that is wrong is told.
pub proof fn sizes_must_be_numbers(line: Seq<char>)
    ensures
        words(line).len() != 4 ==> resolution_of(line) == Err::<Resolution, HdrError>(
            HdrError::BadResolution,
        ),
        words(line).len() == 4 && parsed_unsigned(words(line)[1], usize::MAX as int) is None
            ==> resolution_of(line) == Err::<Resolution, HdrError>(HdrError::BadHeight),
        words(line).len() == 4 && parsed_unsigned(words(line)[1], usize::MAX as int) is Some
            && parsed_unsigned(words(line)[3], usize::MAX as int) is None ==> resolution_of(line)
            == Err::<Resolution, HdrError>(HdrError::BadWidth),
{
}

/// A file starts with one of two words; otherwise it is not of this format.
pub proof fn files_must_say_what_they_are(file: Seq<u8>)
    requires
        first_line(file) is Ok,
        !starts_with(
            first_line(file)->Ok_0.0,
            seq!['#', '?', 'R', 'A', 'D', 'I', 'A', 'N', 'C', 'E'],
        ),
        !starts_with(first_line(file)->Ok_0.0, seq!['#', '?', 'R', 'G', 'B', 'E']),
    ensures
        rgbe_image(file) == Err::<(int, int, Seq<u8>), HdrError>(HdrError::BadHeader),
{
    reveal_strlit("#?RADIANCE");
    reveal_strlit("#?RGBE");
    assert("#?RADIANCE"@ =~= seq!['#', '?', 'R', 'A', 'D', 'I', 'A', 'N', 'C', 'E']);
    assert("#?RGBE"@ =~= seq!['#', '?', 'R', 'G', 'B', 'E']);
}

proof fn lemma_run_is_long(c: Seq<u8>, x: int, n: int, m: int)
    requires
        0 <= x,
        1 <= n <= m <= 127,
        x + m <= c.len(),
        forall|i: int| x <= i < x + m ==> c[i] == c[x],
    ensures
        run_len(c, x, n) >= m,
        run_len(c, x, n) < 127 && x + run_len(c, x, n) < c.len() ==> c[x + run_len(c, x, n)] != c[x],
    decreases 127 - n,
{
    if n < m {
        assert(c[x + n] == c[x]);
        lemma_run_is_long(c, x, n + 1, m);
    } else if x + n < c.len() && n < 127 && c[x + n] == c[x] {
        assert forall|i: int| x <= i < x + n + 1 implies c[i] == c[x] by {
            if i < x + n {
                assert(c[i] == c[x]);
            }
        }
        lemma_run_is_long(c, x, n + 1, n + 1);
    }
}

/// Four equal bytes or more are coded as a run, as far as it goes, in two bytes.
pub proof fn runs_are_coded_as_runs(c: Seq<u8>, x: int)
    requires
        0 <= x,
        x + 4 <= c.len(),
        c[x] == c[x + 1] && c[x] == c[x + 2] && c[x] == c[x + 3],
    ensures
        ({
            let r = run_len(c, x, 1);
            &&& 4 <= r <= 127 && x + r <= c.len()
            &&& forall|i: int| x <= i < x + r ==> c[i] == c[x]
            &&& r == 127 || x + r == c.len() || c[x + r] != c[x]
            &&& channel_code(c, x) == seq![(128 + r) as u8, c[x]] + channel_code(c, x + r)
        }),
{
    lemma_run_len(c, x, 1);
    lemma_run_is_long(c, x, 1, 4);
}

/// A line goes to its end, which belongs to it.
pub proof fn lines_go_to_their_end(a: Seq<u8>, rest: Seq<u8>)
    requires
        !a.contains(10),
    ensures
        line_len(a + seq![10u8] + rest) == a.len() + 1,
        line_len(a) == a.len(),
    decreases a.len(),
{
    let s = a + seq![10u8] + rest;
    if a.len() > 0 {
        assert(a.contains(a[0]));
        let b = a.skip(1);
        assert(!b.contains(10)) by {
            if b.contains(10) {
                let i = choose|i: int| 0 <= i < b.len() && b[i] == 10;
                assert(a[i + 1] == 10);
            }
        }
        lines_go_to_their_end(b, rest);
        assert(s.skip(1) =~= b + seq![10u8] + rest);
    }
}

/// The header goes on to the first blank line; without one there is no size.
pub proof fn headers_end_at_a_blank_line(s: Seq<u8>)
    requires
        first_line(s) is Ok,
    ensures
        s.len() > 0 && trimmed(first_line(s)->Ok_0.0).len() == 0 ==> after_header(s) == Ok::<
            Seq<u8>,
            HdrError,
        >(first_line(s)->Ok_0.1),
        s.len() > 0 && trimmed(first_line(s)->Ok_0.0).len() > 0 ==> after_header(s) == after_header(
            first_line(s)->Ok_0.1,
        ),
        s.len() == 0 ==> after_header(s) == Err::<Seq<u8>, HdrError>(HdrError::MissingResolution),
{
    lemma_line_len(s);
}

proof fn lemma_line_len(s: Seq<u8>)
    ensures
        0 <= line_len(s) <= s.len(),
        s.len() > 0 ==> line_len(s) > 0,
    decreases s.len(),
{
    if s.len() > 0 && s[0] != 10 {
        lemma_line_len(s.skip(1));
    }
}

} // verus!
