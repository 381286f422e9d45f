//! Environment maps: the format of their files, and the texels around a direction.

use crate::text::{chars_of, ends_with, has_suffix, lowered, to_lower};
use crate::texture::{wrap_coordinate, wrapped, Wrap};
use vstd::prelude::*;

verus! {

/// Whether a file is read as OpenEXR; all others are read as Radiance RGBE.
pub fn is_exr(path: &str) -> (r: bool)
    ensures
        r == ends_with(lowered(path@), ".exr"@),
{
    let chars = chars_of(path);
    let low = to_lower(&chars);
    has_suffix(&low, ".exr")
}

/// The positions of the four texels around a point between texel centres, row by row: longitude
/// runs around, latitude stops at the poles.
pub open spec fn around(width: int, height: int, x: int, y: int) -> Seq<int> {
    let x0 = wrapped(Wrap::Repeat, x, width);
    let x1 = wrapped(Wrap::Repeat, x + 1, width);
    let y0 = wrapped(Wrap::Clamp, y, height);
    let y1 = wrapped(Wrap::Clamp, y + 1, height);
    seq![y0 * width + x0, y0 * width + x1, y1 * width + x0, y1 * width + x1]
}

/// The positions of the four texels around the point whose upper left texel is `(x, y)`.
pub fn texels_around(width: usize, height: usize, x: i64, y: i64) -> (r: [usize; 4])
    requires
        1 <= width <= i64::MAX,
        1 <= height <= i64::MAX,
        width * height <= usize::MAX,
        x < i64::MAX,
        y < i64::MAX,
    ensures
        forall|i: int|
            0 <= i < 4 ==> #[trigger] r@[i] == around(width as int, height as int, x as int, y as int)[i]
                && r@[i] < width * height,
{
    let x0: usize = wrap_coordinate(Wrap::Repeat, x, width);
    let x1: usize = wrap_coordinate(Wrap::Repeat, x + 1, width);
    let y0: usize = wrap_coordinate(Wrap::Clamp, y, height);
    let y1: usize = wrap_coordinate(Wrap::Clamp, y + 1, height);
    proof {
        lemma_in_image(width as int, height as int, x0 as int, y0 as int);
        lemma_in_image(width as int, height as int, x1 as int, y0 as int);
        lemma_in_image(width as int, height as int, x0 as int, y1 as int);
        lemma_in_image(width as int, height as int, x1 as int, y1 as int);
    }
    [y0 * width + x0, y0 * width + x1, y1 * width + x0, y1 * width + x1]
}

proof fn lemma_in_image(w: int, h: int, x: int, y: int)
    requires
        0 <= x < w,
        0 <= y < h,
    ensures
        0 <= y * w,
        0 <= y * w + x < w * h,
{
    assert(0 <= y * w && y * w + x < w * h) by (nonlinear_arith)
        requires
            0 <= x < w,
            0 <= y < h,
    ;
}

} // verus!
