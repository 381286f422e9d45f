//! Row filters: each row is stored as differences from a prediction, the prediction chosen row by
//! row.

use vstd::prelude::*;

verus! {

/// How many bytes a pixel takes.
pub const BPP: usize = 3;

pub open spec fn distance(a: int, b: int) -> int {
    if a >= b {
        a - b
    } else {
        b - a
    }
}

/// The Paeth predictor: whichever of left, up and upper left is nearest to `left + up - upper
/// left`, in this order of preference.
pub open spec fn paeth_of(a: u8, b: u8, c: u8) -> u8 {
    let p = a + b - c;
    if distance(p, a as int) <= distance(p, b as int) && distance(p, a as int) <= distance(
        p,
        c as int,
    ) {
        a
    } else if distance(p, b as int) <= distance(p, c as int) {
        b
    } else {
        c
    }
}

/// The byte in row `y` at offset `i`, zero outside the image.
pub open spec fn sample(rgb: Seq<u8>, stride: int, y: int, i: int) -> u8 {
    if y < 0 || i < 0 {
        0
    } else {
        rgb[y * stride + i]
    }
}

/// What filter type `kind` predicts: nothing, the left pixel, the pixel above, or Paeth.
pub open spec fn predicted(kind: u8, left: u8, up: u8, upper_left: u8) -> u8 {
    if kind == 1 {
        left
    } else if kind == 2 {
        up
    } else if kind == 4 {
        paeth_of(left, up, upper_left)
    } else {
        0
    }
}

/// The prediction for the byte in row `y` at offset `i`.
pub open spec fn prediction(kind: u8, rgb: Seq<u8>, stride: int, y: int, i: int) -> u8 {
    predicted(
        kind,
        sample(rgb, stride, y, i - BPP),
        sample(rgb, stride, y - 1, i),
        sample(rgb, stride, y - 1, i - BPP),
    )
}

/// Row `y` under filter type `kind`.
pub open spec fn filtered_row(kind: u8, rgb: Seq<u8>, stride: int, y: int) -> Seq<u8> {
    Seq::new(
        stride as nat,
        |i: int| sample(rgb, stride, y, i).wrapping_sub(prediction(kind, rgb, stride, y, i)),
    )
}

/// The size of a byte taken as a signed number.
pub open spec fn magnitude(b: u8) -> int {
    if b < 128 {
        b as int
    } else {
        256 - b
    }
}

/// The sum of the magnitudes of a row.
pub open spec fn row_cost(row: Seq<u8>) -> int
    decreases row.len(),
{
    if row.len() == 0 {
        0
    } else {
        row_cost(row.drop_last()) + magnitude(row.last())
    }
}

/// The filter type of row `y`: the cheapest of none, left, up and Paeth, the first of equals.
pub open spec fn best_filter(rgb: Seq<u8>, stride: int, y: int) -> u8 {
    let c0 = row_cost(filtered_row(0, rgb, stride, y));
    let c1 = row_cost(filtered_row(1, rgb, stride, y));
    let c2 = row_cost(filtered_row(2, rgb, stride, y));
    let c4 = row_cost(filtered_row(4, rgb, stride, y));
    if c0 <= c1 && c0 <= c2 && c0 <= c4 {
        0
    } else if c1 <= c2 && c1 <= c4 {
        1
    } else if c2 <= c4 {
        2
    } else {
        4
    }
}

/// A row as stored: its filter type, then its filtered bytes.
pub open spec fn stored_row(rgb: Seq<u8>, stride: int, y: int) -> Seq<u8> {
    seq![best_filter(rgb, stride, y)] + filtered_row(best_filter(rgb, stride, y), rgb, stride, y)
}

/// The first `h` rows as stored.
pub open spec fn stored_rows(rgb: Seq<u8>, stride: int, h: int) -> Seq<u8>
    decreases h,
{
    if h <= 0 {
        Seq::empty()
    } else {
        stored_rows(rgb, stride, h - 1) + stored_row(rgb, stride, h - 1)
    }
}

/// Decoding: the first `n` bytes of the image behind the stored rows `raw`.
pub open spec fn unfiltered(raw: Seq<u8>, stride: int, n: int) -> Seq<u8>
    decreases n,
{
    if n <= 0 {
        Seq::empty()
    } else {
        let done = unfiltered(raw, stride, n - 1);
        let y = (n - 1) / stride;
        let i = (n - 1) % stride;
        let kind = raw[y * (stride + 1)];
        let x = raw[y * (stride + 1) + 1 + i];
        done.push(x.wrapping_add(prediction(kind, done, stride, y, i)))
    }
}

/// Whether every stored row has one of the four filter types in use.
pub open spec fn known_filters(raw: Seq<u8>, stride: int, h: int) -> bool {
    forall|y: int|
        0 <= y < h ==> {
            let kind = #[trigger] raw[y * (stride + 1)];
            kind == 0 || kind == 1 || kind == 2 || kind == 4
        }
}

proof fn lemma_row_start(stride: int, y: int, h: int)
    requires
        0 <= stride,
        0 <= y < h,
    ensures
        0 <= y * stride,
        y * stride + stride <= h * stride,
        (y + 1) * stride == y * stride + stride,
{
    assert((y + 1) * stride == y * stride + stride) by (nonlinear_arith);
    assert(0 <= y * stride) by (nonlinear_arith)
        requires
            0 <= stride,
            0 <= y,
    ;
    assert((y + 1) * stride <= h * stride) by (nonlinear_arith)
        requires
            0 <= stride,
            y + 1 <= h,
    ;
}

pub proof fn lemma_stored_rows_len(rgb: Seq<u8>, stride: int, h: int)
    requires
        0 <= stride,
        0 <= h,
    ensures
        stored_rows(rgb, stride, h).len() == h * (stride + 1),
    decreases h,
{
    if h > 0 {
        lemma_stored_rows_len(rgb, stride, h - 1);
        lemma_row_start(stride + 1, h - 1, h);
    } else {
        assert(h * (stride + 1) == 0) by (nonlinear_arith)
            requires
                h == 0,
        ;
    }
}

/// Where a stored row stands among all of them.
pub proof fn lemma_stored_rows_at(rgb: Seq<u8>, stride: int, h: int, y: int, k: int)
    requires
        0 <= stride,
        0 <= y < h,
        0 <= k <= stride,
    ensures
        0 <= y * (stride + 1) + k < stored_rows(rgb, stride, h).len(),
        stored_rows(rgb, stride, h)[y * (stride + 1) + k] == stored_row(rgb, stride, y)[k],
    decreases h,
{
    lemma_stored_rows_len(rgb, stride, h);
    lemma_stored_rows_len(rgb, stride, h - 1);
    lemma_row_start(stride + 1, y, h);
    if y < h - 1 {
        lemma_stored_rows_at(rgb, stride, h - 1, y, k);
    }
}

/// Unfiltering the stored rows gives back the image.
pub proof fn lemma_unfilter(rgb: Seq<u8>, stride: int, h: int, n: int)
    requires
        0 <= stride,
        0 <= h,
        rgb.len() == h * stride,
        0 <= n <= rgb.len(),
    ensures
        unfiltered(stored_rows(rgb, stride, h), stride, n) == rgb.take(n),
        known_filters(stored_rows(rgb, stride, h), stride, h),
    decreases n,
{
    let raw = stored_rows(rgb, stride, h);
    assert forall|y: int| 0 <= y < h implies {
        let kind = #[trigger] raw[y * (stride + 1)];
        kind == 0 || kind == 1 || kind == 2 || kind == 4
    } by {
        lemma_stored_rows_at(rgb, stride, h, y, 0);
    }
    if n > 0 {
        assert(stride > 0) by (nonlinear_arith)
            requires
                0 <= stride,
                0 < n <= h * stride,
        ;
        lemma_unfilter(rgb, stride, h, n - 1);
        let done = unfiltered(raw, stride, n - 1);
        let y = (n - 1) / stride;
        let i = (n - 1) % stride;
        vstd::arithmetic::div_mod::lemma_fundamental_div_mod(n - 1, stride);
        vstd::arithmetic::div_mod::lemma_mod_bound(n - 1, stride);
        vstd::arithmetic::div_mod::lemma_div_pos_is_pos(n - 1, stride);
        assert(y < h) by (nonlinear_arith)
            requires
                n - 1 == stride * y + i,
                n - 1 < h * stride,
                0 <= i,
                0 < stride,
        ;
        assert(y * stride == stride * y) by (nonlinear_arith);
        lemma_stored_rows_at(rgb, stride, h, y, 0);
        lemma_stored_rows_at(rgb, stride, h, y, 1 + i);
        let kind = raw[y * (stride + 1)];
        assert((y - 1) * stride == y * stride - stride) by (nonlinear_arith);
        if y >= 1 {
            lemma_row_start(stride, y - 1, h);
        }
        assert(prediction(kind, done, stride, y, i) == prediction(kind, rgb, stride, y, i));
        assert(filtered_row(kind, rgb, stride, y)[i] == sample(rgb, stride, y, i).wrapping_sub(
            prediction(kind, rgb, stride, y, i),
        ));
        assert(unfiltered(raw, stride, n) =~= rgb.take(n));
    } else {
        assert(unfiltered(raw, stride, n) =~= rgb.take(n));
    }
}

/// Filtering the rows of an image can be undone: each is stored with one of the four filter types
/// in use, and unfiltering them gives back the image.
pub proof fn filtering_can_be_undone(rgb: Seq<u8>, w: int, h: int)
    requires
        0 <= w,
        0 <= h,
        rgb.len() == w * h * 3,
    ensures
        stored_rows(rgb, w * 3, h).len() == h * (3 * w + 1),
        known_filters(stored_rows(rgb, w * 3, h), w * 3, h),
        unfiltered(stored_rows(rgb, w * 3, h), w * 3, rgb.len() as int) == rgb,
{
    assert(w * h * 3 == h * (w * 3)) by (nonlinear_arith);
    lemma_stored_rows_len(rgb, w * 3, h);
    assert(w * 3 + 1 == 3 * w + 1);
    lemma_unfilter(rgb, w * 3, h, rgb.len() as int);
    assert(rgb.take(rgb.len() as int) =~= rgb);
}

/// The Paeth predictor.
pub fn paeth(a: u8, b: u8, c: u8) -> (r: u8)
    ensures
        r == paeth_of(a, b, c),
{
    let ia: i32 = a as i32;
    let ib: i32 = b as i32;
    let ic: i32 = c as i32;
    let p: i32 = ia + ib - ic;
    let pa: i32 = if p >= ia {
        p - ia
    } else {
        ia - p
    };
    let pb: i32 = if p >= ib {
        p - ib
    } else {
        ib - p
    };
    let pc: i32 = if p >= ic {
        p - ic
    } else {
        ic - p
    };
    if pa <= pb && pa <= pc {
        a
    } else if pb <= pc {
        b
    } else {
        c
    }
}

/// The byte in row `y` at offset `i`, zero for what lies above (`up`) or to the left.
fn neighbour(rgb: &[u8], stride: usize, start: usize, i: usize, left: bool, up: bool, Ghost(y): Ghost<int>) -> (r: u8)
    requires
        start == y * stride,
        0 <= y,
        i < stride,
        start + stride <= rgb@.len(),
    ensures
        r == sample(
            rgb@,
            stride as int,
            if up {
                y - 1
            } else {
                y
            },
            if left {
                i - BPP
            } else {
                i as int
            },
        ),
{
    proof {
        assert((y - 1) * stride == y * stride - stride) by (nonlinear_arith);
        if y >= 1 {
            lemma_row_start(stride as int, y - 1, y);
        }
        if y == 0 {
            assert(y * stride == 0) by (nonlinear_arith)
                requires
                    y == 0,
            ;
        }
        if y >= 1 {
            assert(y * stride >= stride) by (nonlinear_arith)
                requires
                    y >= 1,
                    stride >= 0,
            ;
        }
    }
    let size: usize = rgb.len();
    assert(start + stride <= size);
    if left && i < BPP {
        return 0;
    }
    if up && start == 0 {
        return 0;
    }
    let row: usize = if up {
        start - stride
    } else {
        start
    };
    if left {
        rgb[row + i - BPP]
    } else {
        rgb[row + i]
    }
}

/// Row `y` under filter type `kind`, with its cost.
fn filter_row(kind: u8, rgb: &[u8], stride: usize, start: usize, Ghost(y): Ghost<int>) -> (r: (Vec<
    u8,
>, u128))
    requires
        start == y * stride,
        0 <= y,
        start + stride <= rgb@.len(),
    ensures
        r.0@ == filtered_row(kind, rgb@, stride as int, y),
        r.1 == row_cost(r.0@),
{
    let mut row: Vec<u8> = Vec::new();
    let size: usize = rgb.len();
    let mut cost: u128 = 0;
    let mut i: usize = 0;
    while i < stride
        invariant
            i <= stride,
            start == y * stride,
            0 <= y,
            start + stride <= size,
            size == rgb@.len(),
            row@ == filtered_row(kind, rgb@, stride as int, y).take(i as int),
            cost == row_cost(row@),
            cost <= 128 * i,
        decreases stride - i,
    {
        let left: u8 = neighbour(rgb, stride, start, i, true, false, Ghost(y));
        let up: u8 = neighbour(rgb, stride, start, i, false, true, Ghost(y));
        let upper_left: u8 = neighbour(rgb, stride, start, i, true, true, Ghost(y));
        let guess: u8 = if kind == 1 {
            left
        } else if kind == 2 {
            up
        } else if kind == 4 {
            paeth(left, up, upper_left)
        } else {
            0
        };
        let b: u8 = rgb[start + i].wrapping_sub(guess);
        let ghost before = row@;
        row.push(b);
        cost = cost + (if b < 128 {
            b as u128
        } else {
            256 - b as u128
        });
        proof {
            assert(row@.drop_last() =~= before);
            assert(row@ =~= filtered_row(kind, rgb@, stride as int, y).take(i + 1));
        }
        i += 1;
    }
    assert(row@ =~= filtered_row(kind, rgb@, stride as int, y));
    (row, cost)
}

/// The rows of an image of `w` by `h` pixels as they are stored.
pub fn filter_rows(w: usize, h: usize, rgb: &[u8]) -> (out: Vec<u8>)
    requires
        rgb@.len() == w * h * 3,
    ensures
        out@ == stored_rows(rgb@, w * 3, h as int),
{
    let mut out: Vec<u8> = Vec::new();
    if h == 0 {
        return out;
    }
    let ghost size = rgb@.len() as int;
    let n: usize = rgb.len();
    proof {
        assert(size == h * (w * 3)) by (nonlinear_arith)
            requires
                size == w * h * 3,
        ;
        assert(w * 3 <= h * (w * 3)) by (nonlinear_arith)
            requires
                h >= 1,
                w >= 0,
        ;
    }
    let stride: usize = w * 3;
    let mut y: usize = 0;
    let mut start: usize = 0;
    while y < h
        invariant
            y <= h,
            start == y * stride,
            n == rgb@.len(),
            n == h * stride,
            out@ == stored_rows(rgb@, stride as int, y as int),
        decreases h - y,
    {
        proof {
            lemma_row_start(stride as int, y as int, h as int);
        }
        let (r0, c0) = filter_row(0, rgb, stride, start, Ghost(y as int));
        let (r1, c1) = filter_row(1, rgb, stride, start, Ghost(y as int));
        let (r2, c2) = filter_row(2, rgb, stride, start, Ghost(y as int));
        let (r4, c4) = filter_row(4, rgb, stride, start, Ghost(y as int));
        let (kind, row): (u8, Vec<u8>) = if c0 <= c1 && c0 <= c2 && c0 <= c4 {
            (0, r0)
        } else if c1 <= c2 && c1 <= c4 {
            (1, r1)
        } else if c2 <= c4 {
            (2, r2)
        } else {
            (4, r4)
        };
        let ghost before = out@;
        out.push(kind);
        let mut row = row;
        out.append(&mut row);
        proof {
            assert(out@ =~= before + stored_row(rgb@, stride as int, y as int));
        }
        y += 1;
        start += stride;
    }
    out
}

} // verus!
