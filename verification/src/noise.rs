//! Solid noise: the permutation table, the lattice around a point, and the names of patterns.

use crate::reals::{
    at_most, below, between, clamp, finite, is_finite, less, ONE, ZERO,
};
use crate::rng::{splitmix64, splitmix64_of};
use crate::text::{chars_of, is_word};
use vstd::prelude::*;

verus! {

/// How two colours are mixed.
#[derive(Clone, Copy, Debug, PartialEq, Eq, Structural)]
pub enum Pattern {
    Fbm,
    Turbulence,
    Marble,
    Wood,
    Granite,
}

impl Pattern {
    /// The pattern of a name.
    pub fn parse(s: &str) -> (r: Option<Self>)
        ensures
            r == (if s@ == "fbm"@ {
                Some(Pattern::Fbm)
            } else if s@ == "turbulence"@ {
                Some(Pattern::Turbulence)
            } else if s@ == "marble"@ {
                Some(Pattern::Marble)
            } else if s@ == "wood"@ {
                Some(Pattern::Wood)
            } else if s@ == "granite"@ {
                Some(Pattern::Granite)
            } else {
                None
            }),
    {
        let c = chars_of(s);
        if is_word(&c, "fbm") {
            Some(Pattern::Fbm)
        } else if is_word(&c, "turbulence") {
            Some(Pattern::Turbulence)
        } else if is_word(&c, "marble") {
            Some(Pattern::Marble)
        } else if is_word(&c, "wood") {
            Some(Pattern::Wood)
        } else if is_word(&c, "granite") {
            Some(Pattern::Granite)
        } else {
            None
        }
    }
}

/// The numbers that shape a pattern, as bits where they are not whole.
#[derive(Clone, Copy, Debug, PartialEq, Eq, Structural)]
pub struct NoiseNumbers {
    /// Spatial frequency.
    pub scale: u64,
    pub octaves: u32,
    /// Growth of the frequency from octave to octave.
    pub lacunarity: u64,
    /// Decay of the amplitude from octave to octave.
    pub gain: u64,
    /// How much turbulence distorts the pattern.
    pub strength: u64,
}

/// The bits of a million.
pub const MILLION: u64 = 0x412E_8480_0000_0000;

/// The bits of 2.
pub const TWO: u64 = 0x4000_0000_0000_0000;

/// The bits of 8.
pub const EIGHT: u64 = 0x4020_0000_0000_0000;

/// The bits of 0.5.
pub const HALF: u64 = 0x3FE0_0000_0000_0000;

/// The numbers, each in the range that it can have.
pub open spec fn usable_numbers(n: NoiseNumbers) -> NoiseNumbers {
    NoiseNumbers {
        scale: if !(is_finite(n.scale) && below(ZERO, n.scale)) {
            ONE
        } else if below(MILLION, n.scale) {
            MILLION
        } else {
            n.scale
        },
        octaves: if n.octaves < 1 {
            1
        } else if n.octaves > 10 {
            10
        } else {
            n.octaves
        },
        lacunarity: if is_finite(n.lacunarity) {
            between(ONE, n.lacunarity, EIGHT)
        } else {
            TWO
        },
        gain: if is_finite(n.gain) {
            between(ZERO, n.gain, ONE)
        } else {
            HALF
        },
        strength: if is_finite(n.strength) {
            n.strength
        } else {
            ONE
        },
    }
}

impl NoiseNumbers {
    /// The numbers, each moved into the range that it can have.
    pub fn sanitized(self) -> (r: Self)
        ensures
            r == usable_numbers(self),
    {
        let scale: u64 = if !(finite(self.scale) && less(ZERO, self.scale)) {
            ONE
        } else if less(MILLION, self.scale) {
            MILLION
        } else {
            self.scale
        };
        let octaves: u32 = if self.octaves < 1 {
            1
        } else if self.octaves > 10 {
            10
        } else {
            self.octaves
        };
        let lacunarity: u64 = if finite(self.lacunarity) {
            clamp(ONE, self.lacunarity, EIGHT)
        } else {
            TWO
        };
        let gain: u64 = if finite(self.gain) {
            clamp(ZERO, self.gain, ONE)
        } else {
            HALF
        };
        let strength: u64 = if finite(self.strength) {
            self.strength
        } else {
            ONE
        };
        NoiseNumbers { scale, octaves, lacunarity, gain, strength }
    }
}

/// Whatever the numbers were, those that are used lie in their ranges, and numbers that did stay
/// as they are.
pub proof fn noise_is_usable(n: NoiseNumbers)
    ensures
        ({
            let u = usable_numbers(n);
            &&& below(ZERO, u.scale) && at_most(u.scale, MILLION)
            &&& 1 <= u.octaves <= 10
            &&& at_most(ONE, u.lacunarity) && at_most(u.lacunarity, EIGHT)
            &&& at_most(ZERO, u.gain) && at_most(u.gain, ONE)
            &&& is_finite(u.strength)
            &&& usable_numbers(u) == u
        }),
{
}

/// The seed of the permutation table.
pub const PERM_SEED: u64 = 0x5_EED0_FA11;

/// The bytes in their order.
pub open spec fn byte_order() -> Seq<u8> {
    Seq::new(256, |i: int| i as u8)
}

/// `s` with entries `i` and `j` exchanged.
pub open spec fn swapped(s: Seq<u8>, i: int, j: int) -> Seq<u8> {
    s.update(i, s[j]).update(j, s[i])
}

/// The Fisher-Yates shuffle of the entries up to `i`, each exchanged with the one that the next
/// step of the mixer picks.
pub open spec fn shuffle_from(s: Seq<u8>, i: int, state: u64) -> Seq<u8>
    decreases i,
{
    if i <= 0 {
        s
    } else {
        let next = splitmix64_of(state);
        shuffle_from(swapped(s, i, (next % ((i + 1) as u64)) as int), i - 1, next)
    }
}

/// The permutation table: the bytes shuffled from a fixed seed, twice over.
pub open spec fn permutation() -> Seq<u8> {
    let p = shuffle_from(byte_order(), 255, PERM_SEED);
    p + p
}

proof fn lemma_swap_keeps(s: Seq<u8>, i: int, j: int)
    requires
        0 <= i < s.len(),
        0 <= j < s.len(),
        s.no_duplicates(),
    ensures
        swapped(s, i, j).no_duplicates(),
        swapped(s, i, j).len() == s.len(),
{
}

proof fn lemma_shuffle_keeps(s: Seq<u8>, i: int, state: u64)
    requires
        s.len() == 256,
        i <= 255,
        s.no_duplicates(),
    ensures
        shuffle_from(s, i, state).no_duplicates(),
        shuffle_from(s, i, state).len() == 256,
    decreases i,
{
    if i > 0 {
        let next = splitmix64_of(state);
        let j = (next % ((i + 1) as u64)) as int;
        lemma_swap_keeps(s, i, j);
        lemma_shuffle_keeps(swapped(s, i, j), i - 1, next);
    }
}

/// The table is a permutation of the bytes, repeated once: 256 different entries, then the same
/// again.
pub proof fn permutation_is_a_permutation()
    ensures
        permutation().len() == 512,
        permutation().take(256).no_duplicates(),
        forall|i: int| 0 <= i < 256 ==> #[trigger] permutation()[i + 256] == permutation()[i],
{
    lemma_shuffle_keeps(byte_order(), 255, PERM_SEED);
    let p = shuffle_from(byte_order(), 255, PERM_SEED);
    assert(permutation().take(256) =~= p);
}

/// The permutation table.
pub fn permutation_table() -> (t: Vec<u8>)
    ensures
        t@ == permutation(),
        t@.len() == 512,
{
    let mut p: Vec<u8> = Vec::new();
    let mut n: usize = 0;
    while n < 256
        invariant
            n <= 256,
            p@ == byte_order().take(n as int),
        decreases 256 - n,
    {
        p.push(n as u8);
        n += 1;
        assert(p@ =~= byte_order().take(n as int));
    }
    assert(p@ =~= byte_order());
    let mut state: u64 = PERM_SEED;
    let mut i: usize = 255;
    while i > 0
        invariant
            i <= 255,
            p@.len() == 256,
            shuffle_from(p@, i as int, state) == shuffle_from(byte_order(), 255, PERM_SEED),
        decreases i,
    {
        state = splitmix64(state);
        let j: usize = (state % (i as u64 + 1)) as usize;
        let a: u8 = p[i];
        let b: u8 = p[j];
        p.set(i, b);
        p.set(j, a);
        i -= 1;
    }
    let ghost once = p@;
    let mut k: usize = 0;
    while k < 256
        invariant
            k <= 256,
            once.len() == 256,
            p@ == once + once.take(k as int),
        decreases 256 - k,
    {
        let b: u8 = p[k];
        p.push(b);
        k += 1;
        assert(p@ =~= once + once.take(k as int));
    }
    assert(once.take(256) =~= once);
    p
}

/// The table entry behind a lattice point: the table applied to each coordinate in turn.
pub open spec fn corner(t: Seq<u8>, x: int, y: int, z: int) -> u8 {
    t[t[t[x] + y] + z]
}

/// The entries behind the eight corners of the cell at a lattice point, x counted first. Only the
/// low eight bits of the coordinates matter.
pub fn cell_corners(t: &Vec<u8>, x: i64, y: i64, z: i64) -> (r: [u8; 8])
    requires
        t@.len() == 512,
    ensures
        ({
            let (a, b, c) = ((x & 255) as int, (y & 255) as int, (z & 255) as int);
            &&& r@[0] == corner(t@, a, b, c)
            &&& r@[1] == corner(t@, a + 1, b, c)
            &&& r@[2] == corner(t@, a, b + 1, c)
            &&& r@[3] == corner(t@, a + 1, b + 1, c)
            &&& r@[4] == corner(t@, a, b, c + 1)
            &&& r@[5] == corner(t@, a + 1, b, c + 1)
            &&& r@[6] == corner(t@, a, b + 1, c + 1)
            &&& r@[7] == corner(t@, a + 1, b + 1, c + 1)
        }),
{
    assert(0 <= (x & 255) <= 255 && 0 <= (y & 255) <= 255 && 0 <= (z & 255) <= 255) by (bit_vector);
    let xi: usize = (x & 255) as usize;
    let yi: usize = (y & 255) as usize;
    let zi: usize = (z & 255) as usize;
    let a: usize = t[xi] as usize + yi;
    let b: usize = t[xi + 1] as usize + yi;
    let aa: usize = t[a] as usize + zi;
    let ab: usize = t[a + 1] as usize + zi;
    let ba: usize = t[b] as usize + zi;
    let bb: usize = t[b + 1] as usize + zi;
    [t[aa], t[ba], t[ab], t[bb], t[aa + 1], t[ba + 1], t[ab + 1], t[bb + 1]]
}

/// An axis.
#[derive(Clone, Copy, Debug, PartialEq, Eq, Structural)]
pub enum Axis {
    X,
    Y,
    Z,
}

/// A gradient along an edge of the cube: two axes, each with or against its direction.
#[derive(Clone, Copy, Debug, PartialEq, Eq, Structural)]
pub struct Gradient {
    pub u: Axis,
    pub u_negative: bool,
    pub v: Axis,
    pub v_negative: bool,
}

/// The gradient of a table entry: its low four bits pick one of the edges.
pub open spec fn gradient_of(hash: u8) -> Gradient {
    let h = hash % 16;
    Gradient {
        u: if h < 8 {
            Axis::X
        } else {
            Axis::Y
        },
        u_negative: h % 2 == 1,
        v: if h < 4 {
            Axis::Y
        } else if h == 12 || h == 14 {
            Axis::X
        } else {
            Axis::Z
        },
        v_negative: h / 2 % 2 == 1,
    }
}

/// The gradient of a table entry.
pub fn grad(hash: u8) -> (r: Gradient)
    ensures
        r == gradient_of(hash),
{
    let h: u8 = hash % 16;
    Gradient {
        u: if h < 8 {
            Axis::X
        } else {
            Axis::Y
        },
        u_negative: h % 2 == 1,
        v: if h < 4 {
            Axis::Y
        } else if h == 12 || h == 14 {
            Axis::X
        } else {
            Axis::Z
        },
        v_negative: h / 2 % 2 == 1,
    }
}

/// The two axes of a gradient differ, so it runs along an edge.
pub proof fn gradient_axes_differ(hash: u8)
    ensures
        gradient_of(hash).u != gradient_of(hash).v,
{
}

} // verus!
