//! Patterns: where a texture is looked up, what noise is made of, and the shapes that are built in.

use crate::decimal::decimal_text;
use crate::env::around;
use crate::mitsuba::units::{cube_corners, cube_faces, square_corners, square_uv};
use crate::noise::{
    byte_order, corner, gradient_of, permutation, shuffle_from, swapped, usable_numbers, Axis,
    NoiseNumbers,
};
use crate::output::ppm_file;
use crate::reals::{at_most, below, is_finite};
use crate::rng::splitmix64_of;
use crate::texture::{wrapped, Wrap};
use vstd::prelude::*;

verus! {

/// A repeated texture is the same again a width further, in either direction; a clamped one goes on
/// with its first and its last texel.
pub proof fn textures_go_on(x: int, n: int)
    requires
        n >= 1,
    ensures
        wrapped(Wrap::Repeat, x + n, n) == wrapped(Wrap::Repeat, x, n),
        0 <= x < n ==> wrapped(Wrap::Repeat, x, n) == x,
        wrapped(Wrap::Repeat, -1, n) == n - 1,
        wrapped(Wrap::Repeat, n, n) == 0,
        x < 0 ==> wrapped(Wrap::Clamp, x, n) == 0,
        x >= n ==> wrapped(Wrap::Clamp, x, n) == n - 1,
        0 <= x < n ==> wrapped(Wrap::Clamp, x, n) == x,
{
    vstd::arithmetic::div_mod::lemma_mod_add_multiples_vanish(x, n);
    vstd::arithmetic::div_mod::lemma_mod_add_multiples_vanish(-1, n);
    if 0 <= x < n {
        vstd::arithmetic::div_mod::lemma_small_mod(x as nat, n as nat);
    }
    vstd::arithmetic::div_mod::lemma_small_mod((n - 1) as nat, n as nat);
    vstd::arithmetic::div_mod::lemma_mod_self_0(n);
    assert((x + n) % n == x % n);
    assert((-1 + n) % n == -1int % n);
}

/// The four texels around a point of the surroundings: the left and the right one of its row, then of
/// the row below. On the right the surroundings go on at the left; at the bottom they end.
pub proof fn surroundings_go_round(w: int, h: int, x: int, y: int)
    requires
        0 <= x < w,
        0 <= y < h,
    ensures
        ({
            let s = around(w, h, x, y);
            let right = if x + 1 < w {
                x + 1
            } else {
                0
            };
            let under = if y + 1 < h {
                y + 1
            } else {
                y
            };
            &&& s.len() == 4
            &&& s[0] == y * w + x
            &&& s[1] == y * w + right
            &&& s[2] == under * w + x
            &&& s[3] == under * w + right
        }),
{
    textures_go_on(x, w);
    textures_go_on(x + 1, w);
    textures_go_on(y, h);
    textures_go_on(y + 1, h);
}

/// Settings of noise that are in their range are used as they are.
pub proof fn noise_is_as_asked(n: NoiseNumbers)
    ensures
        ({
            let r = usable_numbers(n);
            let one = 0x3FF0_0000_0000_0000u64;
            let million = 0x412E_8480_0000_0000u64;
            &&& below(0, n.scale) && at_most(n.scale, million) ==> r.scale == n.scale
            &&& below(million, n.scale) && is_finite(n.scale) ==> r.scale == million
            &&& !below(0, n.scale) || !is_finite(n.scale) ==> r.scale == one
            &&& 1 <= n.octaves <= 10 ==> r.octaves == n.octaves
            &&& n.octaves < 1 ==> r.octaves == 1
            &&& n.octaves > 10 ==> r.octaves == 10
            &&& at_most(one, n.lacunarity) && at_most(n.lacunarity, 0x4020_0000_0000_0000)
                ==> r.lacunarity == n.lacunarity
            &&& below(n.lacunarity, one) && is_finite(n.lacunarity) ==> r.lacunarity == one
            &&& below(0x4020_0000_0000_0000, n.lacunarity) && is_finite(n.lacunarity)
                ==> r.lacunarity == 0x4020_0000_0000_0000
            &&& !is_finite(n.lacunarity) ==> r.lacunarity == 0x4000_0000_0000_0000
            &&& at_most(0, n.gain) && at_most(n.gain, one) ==> r.gain == n.gain
            &&& below(n.gain, 0) && is_finite(n.gain) ==> r.gain == 0
            &&& below(one, n.gain) && is_finite(n.gain) ==> r.gain == one
            &&& !is_finite(n.gain) ==> r.gain == 0x3FE0_0000_0000_0000
            &&& is_finite(n.strength) ==> r.strength == n.strength
            &&& !is_finite(n.strength) ==> r.strength == one
        }),
{
}

/// The part of a gradient along an axis.
pub open spec fn along(hash: u8, axis: Axis) -> int {
    let g = gradient_of(hash);
    if g.u == axis {
        if g.u_negative {
            -1
        } else {
            1
        }
    } else if g.v == axis {
        if g.v_negative {
            -1
        } else {
            1
        }
    } else {
        0
    }
}

/// The low bit of a hash turns the first part of its gradient around and the next bit the second;
/// bits above the lowest four do not matter.
pub proof fn gradients_are_turned_by_bits(a: u8)
    ensures
        a % 2 == 0 ==> {
            let g = gradient_of(a);
            let h = gradient_of((a + 1) as u8);
            !g.u_negative && h.u_negative && g.u == h.u && g.v_negative == h.v_negative
        },
        a % 4 < 2 ==> {
            let g = gradient_of(a);
            let h = gradient_of((a + 2) as u8);
            !g.v_negative && h.v_negative && g.u == h.u && g.u_negative == h.u_negative
        },
        a <= 239 ==> gradient_of((a + 16) as u8) == gradient_of(a),
{
}

/// Gradients go from the middle of a cube to the middle of an edge: the first four across the first
/// two axes, then four across the first and the third, then four across the last two.
pub proof fn gradients_point_to_edges(a: u8)
    requires
        a < 12,
    ensures
        a < 4 ==> along(a, Axis::X) == 1 - 2 * (a % 2) && along(a, Axis::Y) == 1 - 2 * (a / 2 % 2)
            && along(a, Axis::Z) == 0,
        4 <= a < 8 ==> along(a, Axis::X) == 1 - 2 * (a % 2) && along(a, Axis::Y) == 0 && along(
            a,
            Axis::Z,
        ) == 1 - 2 * (a / 2 % 2),
        8 <= a ==> along(a, Axis::X) == 0 && along(a, Axis::Y) == 1 - 2 * (a % 2) && along(
            a,
            Axis::Z,
        ) == 1 - 2 * (a / 2 % 2),
{
}

/// No two of the first twelve hashes have the same gradient, and the other four repeat some.
pub proof fn gradients_differ(a: u8, b: u8)
    requires
        a < b < 12,
    ensures
        along(a, Axis::X) != along(b, Axis::X) || along(a, Axis::Y) != along(b, Axis::Y) || along(
            a,
            Axis::Z,
        ) != along(b, Axis::Z),
        along(12, Axis::X) == 1 && along(12, Axis::Y) == 1 && along(12, Axis::Z) == 0,
        along(13, Axis::X) == 0 && along(13, Axis::Y) == -1 && along(13, Axis::Z) == 1,
        along(14, Axis::X) == -1 && along(14, Axis::Y) == 1 && along(14, Axis::Z) == 0,
        along(15, Axis::X) == 0 && along(15, Axis::Y) == -1 && along(15, Axis::Z) == -1,
{
    gradients_point_to_edges(a);
    gradients_point_to_edges(b);
}

/// The hash of a lattice point goes through the table once for each axis.
pub proof fn lattice_points_are_hashed_axis_by_axis(t: Seq<u8>, x: int, y: int, z: int, a: u8, b: u8)
    requires
        t[x] == a,
        t[a + y] == b,
    ensures
        corner(t, x, y, z) == t[b + z],
{
}

/// The table of noise is the bytes in their order, shuffled from the last one down: each is exchanged
/// with one at or before it, which the next random number picks.
pub proof fn tables_are_shuffled_from_the_end(s: Seq<u8>, i: int, state: u64, k: int)
    requires
        0 < i < s.len(),
        s.len() <= 256,
        0 <= k < 256,
    ensures
        ({
            let next = splitmix64_of(state);
            let j = next as int % (i + 1);
            let r = swapped(s, i, j);
            &&& 0 <= j <= i
            &&& r.len() == s.len()
            &&& r[i] == s[j] && r[j] == s[i]
            &&& forall|m: int| 0 <= m < s.len() && m != i && m != j ==> #[trigger] r[m] == s[m]
            &&& shuffle_from(s, i, state) == shuffle_from(r, i - 1, next)
        }),
        shuffle_from(s, 0, state) == s,
        byte_order().len() == 256 && byte_order()[k] == k,
        permutation() == shuffle_from(byte_order(), 255, 0x5_EED0_FA11) + shuffle_from(
            byte_order(),
            255,
            0x5_EED0_FA11,
        ),
{
    let next = splitmix64_of(state);
    assert(0 <= next as int % (i + 1) <= i);
    assert((next % ((i + 1) as u64)) as int == next as int % (i + 1));
}

/// The corners of the square go round it, and each has its own corner of the texture: left and right
/// go with the first coordinate, bottom and top with the second.
pub proof fn squares_are_textured_as_they_lie(i: int)
    requires
        0 <= i < 4,
    ensures
        square_corners().len() == 4 && square_uv().len() == 4,
        square_corners()[i].2 == "0"@,
        square_uv()[i].0 == "0"@ <==> square_corners()[i].0 == "-1"@,
        square_uv()[i].0 == "1"@ <==> square_corners()[i].0 == "1"@,
        square_uv()[i].1 == "0"@ <==> square_corners()[i].1 == "-1"@,
        square_uv()[i].1 == "1"@ <==> square_corners()[i].1 == "1"@,
        square_corners()[0].0 == "-1"@ && square_corners()[0].1 == "-1"@,
        square_corners()[1].0 == "1"@ && square_corners()[1].1 == "-1"@,
        square_corners()[2].0 == "1"@ && square_corners()[2].1 == "1"@,
        square_corners()[3].0 == "-1"@ && square_corners()[3].1 == "1"@,
{
    reveal_strlit("0");
    reveal_strlit("1");
    reveal_strlit("-1");
    assert("0"@[0] == '0' && "1"@[0] == '1' && "-1"@.len() == 2 && "1"@.len() == 1 && "0"@.len() == 1);
}

/// A side of the cube, as a number.
pub open spec fn sign(s: Seq<char>) -> int {
    if s == "-1"@ {
        -1
    } else if s == "1"@ {
        1
    } else {
        0
    }
}

/// The corners of the cube are all eight with coordinates of minus one and one.
pub proof fn cubes_have_eight_corners(i: int, j: int)
    requires
        0 <= i < 8,
        0 <= j < 8,
    ensures
        cube_corners().len() == 8,
        sign(cube_corners()[i].0) != 0 && sign(cube_corners()[i].1) != 0 && sign(
            cube_corners()[i].2,
        ) != 0,
        cube_corners()[i] == cube_corners()[j] ==> i == j,
{
    reveal_strlit("1");
    reveal_strlit("-1");
    assert("-1"@.len() == 2 && "1"@.len() == 1);
}

/// A coordinate of a corner of the cube.
pub open spec fn coordinate(i: int, axis: int) -> int {
    let c = cube_corners()[i];
    if axis == 0 {
        sign(c.0)
    } else if axis == 1 {
        sign(c.1)
    } else {
        sign(c.2)
    }
}

/// The corner of a face.
pub open spec fn face_corner(f: int, k: int) -> int {
    let q = cube_faces()[f];
    if k == 0 {
        q.0 as int
    } else if k == 1 {
        q.1 as int
    } else if k == 2 {
        q.2 as int
    } else {
        q.3 as int
    }
}

/// Each face of the cube goes round one of its six sides: neighbouring corners share an edge, all
/// four lie on the same side, and no two faces lie on the same side.
pub proof fn cubes_have_six_faces(f: int)
    requires
        0 <= f < 6,
    ensures
        cube_faces().len() == 6,
        forall|k: int| 0 <= k < 4 ==> 0 <= #[trigger] face_corner(f, k) < 8,
        forall|k: int|
            #![trigger face_corner(f, k)]
            0 <= k < 4 ==> {
                let a = face_corner(f, k);
                let b = face_corner(f, (k + 1) % 4);
                (if coordinate(a, 0) == coordinate(b, 0) {
                    0int
                } else {
                    1
                }) + (if coordinate(a, 1) == coordinate(b, 1) {
                    0int
                } else {
                    1
                }) + (if coordinate(a, 2) == coordinate(b, 2) {
                    0int
                } else {
                    1
                }) == 1
            },
        ({
            let on = |axis: int, s: int|
                coordinate(face_corner(f, 0), axis) == s && coordinate(face_corner(f, 1), axis) == s
                    && coordinate(face_corner(f, 2), axis) == s && coordinate(
                    face_corner(f, 3),
                    axis,
                ) == s;
            &&& f == 0 ==> on(2, -1)
            &&& f == 1 ==> on(2, 1)
            &&& f == 2 ==> on(1, -1)
            &&& f == 3 ==> on(0, 1)
            &&& f == 4 ==> on(1, 1)
            &&& f == 5 ==> on(0, -1)
        }),
{
    reveal_strlit("1");
    reveal_strlit("-1");
    assert("-1"@.len() == 2 && "1"@.len() == 1);
    assert forall|k: int| 0 <= k < 4 implies 0 <= #[trigger] face_corner(f, k) < 8 by {}
}

/// The step from one corner of a face to the next, along an axis.
pub open spec fn edge(f: int, k: int, axis: int) -> int {
    coordinate(face_corner(f, k + 1), axis) - coordinate(face_corner(f, k), axis)
}

/// The faces of the cube all go round in the same sense, seen from the inside: by the rule of the right
/// hand they look inwards.
pub proof fn cubes_look_inwards(f: int)
    requires
        0 <= f < 6,
    ensures
        ({
            let x = edge(f, 0, 1) * edge(f, 1, 2) - edge(f, 0, 2) * edge(f, 1, 1);
            let y = edge(f, 0, 2) * edge(f, 1, 0) - edge(f, 0, 0) * edge(f, 1, 2);
            let z = edge(f, 0, 0) * edge(f, 1, 1) - edge(f, 0, 1) * edge(f, 1, 0);
            &&& f == 0 ==> x == 0 && y == 0 && z == 4
            &&& f == 1 ==> x == 0 && y == 0 && z == -4
            &&& f == 2 ==> x == 0 && y == 4 && z == 0
            &&& f == 3 ==> x == -4 && y == 0 && z == 0
            &&& f == 4 ==> x == 0 && y == -4 && z == 0
            &&& f == 5 ==> x == 4 && y == 0 && z == 0
        }),
{
    reveal_strlit("1");
    reveal_strlit("-1");
    assert("-1"@.len() == 2 && "1"@.len() == 1);
    if f == 0 {
        assert(edge(0, 0, 0) == 2 && edge(0, 0, 1) == 0 && edge(0, 0, 2) == 0);
        assert(edge(0, 1, 0) == 0 && edge(0, 1, 1) == 2 && edge(0, 1, 2) == 0);
    } else if f == 1 {
        assert(edge(1, 0, 0) == 0 && edge(1, 0, 1) == 2 && edge(1, 0, 2) == 0);
        assert(edge(1, 1, 0) == 2 && edge(1, 1, 1) == 0 && edge(1, 1, 2) == 0);
    } else if f == 2 {
        assert(edge(2, 0, 0) == 0 && edge(2, 0, 1) == 0 && edge(2, 0, 2) == 2);
        assert(edge(2, 1, 0) == 2 && edge(2, 1, 1) == 0 && edge(2, 1, 2) == 0);
    } else if f == 3 {
        assert(edge(3, 0, 0) == 0 && edge(3, 0, 1) == 0 && edge(3, 0, 2) == 2);
        assert(edge(3, 1, 0) == 0 && edge(3, 1, 1) == 2 && edge(3, 1, 2) == 0);
    } else if f == 4 {
        assert(edge(4, 0, 0) == 0 && edge(4, 0, 1) == 0 && edge(4, 0, 2) == 2);
        assert(edge(4, 1, 0) == -2 && edge(4, 1, 1) == 0 && edge(4, 1, 2) == 0);
    } else {
        assert(edge(5, 0, 0) == 0 && edge(5, 0, 1) == 0 && edge(5, 0, 2) == 2);
        assert(edge(5, 1, 0) == 0 && edge(5, 1, 1) == -2 && edge(5, 1, 2) == 0);
    }
}

/// A picture is written as its size in digits and its samples, in their order.
pub proof fn pictures_are_written_plainly(w: int, h: int, rgb: Seq<u8>, i: int)
    requires
        0 <= w && 0 <= h,
        0 <= i < rgb.len(),
    ensures
        ({
            let f = ppm_file(w, h, rgb);
            let a = decimal_text(w as nat);
            let b = decimal_text(h as nat);
            let n = 9 + a.len() + b.len();
            &&& f.len() == n + rgb.len()
            &&& f[0] == 0x50 && f[1] == 0x36 && f[2] == 0x0A
            &&& forall|k: int|
                0 <= k < a.len() ==> #[trigger] f[3 + k] == (a[k] as u32) as u8
            &&& f[3int + a.len()] == 0x20
            &&& forall|k: int|
                0 <= k < b.len() ==> #[trigger] f[4int + a.len() + k] == (b[k] as u32) as u8
            &&& f.subrange(4int + a.len() + b.len(), n as int) == seq![0x0Au8, 0x32, 0x35, 0x35, 0x0A]
            &&& f[n + i] == rgb[i]
        }),
{
    let f = ppm_file(w, h, rgb);
    let a = decimal_text(w as nat);
    let b = decimal_text(h as nat);
    let n = 9 + a.len() + b.len();
    assert(f.subrange(4int + a.len() + b.len(), n as int) =~= seq![0x0Au8, 0x32, 0x35, 0x35, 0x0A]);
}

} // verus!
