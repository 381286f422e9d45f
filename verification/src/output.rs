//! Image formats by file name, and the binary PPM format.

use crate::decimal::{ascii, decimal_text, lemma_decimal_text, push_decimal};
use crate::text::{chars_of, ends_with, has_suffix, is_digit, lowered, to_lower};
use vstd::prelude::*;

verus! {

/// The format of an image file.
#[derive(Clone, Copy, PartialEq, Eq, Debug, Structural)]
pub enum OutputFormat {
    /// Binary PPM, eight bits per sample.
    Ppm,
    /// Radiance RGBE.
    Hdr,
    /// OpenEXR.
    Exr,
}

impl OutputFormat {
    /// The format that the ending of a path asks for, whatever its case; PPM if it asks for none.
    pub fn from_path(path: &str) -> (r: Self)
        ensures
            r == (if ends_with(lowered(path@), ".exr"@) {
                OutputFormat::Exr
            } else if ends_with(lowered(path@), ".hdr"@) {
                OutputFormat::Hdr
            } else {
                OutputFormat::Ppm
            }),
    {
        let chars = chars_of(path);
        let low = to_lower(&chars);
        if has_suffix(&low, ".exr") {
            OutputFormat::Exr
        } else if has_suffix(&low, ".hdr") {
            OutputFormat::Hdr
        } else {
            OutputFormat::Ppm
        }
    }
}

/// The bytes of a binary PPM: the header, then the samples as they are.
pub open spec fn ppm_file(w: int, h: int, rgb: Seq<u8>) -> Seq<u8> {
    seq![80u8, 54, 10] + ascii(decimal_text(w as nat)) + seq![32u8] + ascii(decimal_text(h as nat))
        + seq![10u8, 50, 53, 53, 10] + rgb
}

/// Appends a binary PPM to `out`.
pub fn write_ppm_p6(out: &mut Vec<u8>, w: usize, h: usize, rgb: &[u8])
    ensures
        final(out)@ == old(out)@ + ppm_file(w as int, h as int, rgb@),
{
    let ghost start = out@;
    out.push(80);
    out.push(54);
    out.push(10);
    push_decimal(out, w as u64);
    out.push(32);
    push_decimal(out, h as u64);
    out.push(10);
    out.push(50);
    out.push(53);
    out.push(53);
    out.push(10);
    let ghost before = out@;
    let mut i: usize = 0;
    while i < rgb.len()
        invariant
            i <= rgb@.len(),
            out@ == before + rgb@.take(i as int),
        decreases rgb@.len() - i,
    {
        out.push(rgb[i]);
        i += 1;
        assert(out@ =~= before + rgb@.take(i as int));
    }
    assert(rgb@.take(i as int) =~= rgb@);
    assert(out@ =~= start + ppm_file(w as int, h as int, rgb@));
}

/// A number that a byte other than a digit follows is told by the bytes.
proof fn lemma_number_first(a: nat, b: nat, x: Seq<u8>, y: Seq<u8>)
    requires
        ascii(decimal_text(a)) + x == ascii(decimal_text(b)) + y,
        x.len() > 0 && !(48 <= x[0] <= 57),
        y.len() > 0 && !(48 <= y[0] <= 57),
    ensures
        a == b,
        x == y,
{
    let (s, t) = (decimal_text(a), decimal_text(b));
    let (p, q) = (ascii(s), ascii(t));
    lemma_decimal_text(a);
    lemma_decimal_text(b);
    assert forall|i: int| 0 <= i < p.len() implies 48 <= #[trigger] p[i] <= 57 && p[i] as char
        == s[i] by {
        assert(is_digit(s[i]));
    }
    assert forall|i: int| 0 <= i < q.len() implies 48 <= #[trigger] q[i] <= 57 && q[i] as char
        == t[i] by {
        assert(is_digit(t[i]));
    }
    let f = p + x;
    assert(f[p.len() as int] == x[0]);
    assert(f == q + y);
    assert(f[q.len() as int] == y[0]);
    if p.len() < q.len() {
        assert(f[p.len() as int] == q[p.len() as int]);
    } else if q.len() < p.len() {
        assert(f[q.len() as int] == p[q.len() as int]);
    }
    assert forall|i: int| 0 <= i < p.len() implies s[i] == t[i] by {
        assert(f[i] == p[i] && f[i] == q[i]);
    }
    assert(s =~= t);
    assert(x =~= f.skip(p.len() as int));
    assert(y =~= f.skip(q.len() as int));
}

/// A file tells its image: files that are equal have the same size and the same samples.
pub proof fn ppm_file_tells_its_image(
    w1: int,
    h1: int,
    rgb1: Seq<u8>,
    w2: int,
    h2: int,
    rgb2: Seq<u8>,
)
    requires
        0 <= w1 && 0 <= h1 && 0 <= w2 && 0 <= h2,
        ppm_file(w1, h1, rgb1) == ppm_file(w2, h2, rgb2),
    ensures
        w1 == w2,
        h1 == h2,
        rgb1 == rgb2,
{
    let end = seq![10u8, 50, 53, 53, 10];
    let (x, y) = (end + rgb1, end + rgb2);
    let (p, q) = (
        seq![32u8] + ascii(decimal_text(h1 as nat)) + x,
        seq![32u8] + ascii(decimal_text(h2 as nat)) + y,
    );
    let (f, g) = (ppm_file(w1, h1, rgb1), ppm_file(w2, h2, rgb2));
    assert(f.skip(3) =~= ascii(decimal_text(w1 as nat)) + p);
    assert(g.skip(3) =~= ascii(decimal_text(w2 as nat)) + q);
    lemma_number_first(w1 as nat, w2 as nat, p, q);
    assert(p.skip(1) =~= ascii(decimal_text(h1 as nat)) + x);
    assert(q.skip(1) =~= ascii(decimal_text(h2 as nat)) + y);
    lemma_number_first(h1 as nat, h2 as nat, x, y);
    assert(x.skip(5) =~= rgb1);
    assert(y.skip(5) =~= rgb2);
}

} // verus!
