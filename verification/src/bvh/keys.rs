//! Coordinates as order keys, and boxes of them.
//!
//! A 64-bit floating-point number other than NaN is carried as an unsigned key that orders as the
//! numbers do, so that boxes can be grown and compared with integers alone. The key and the bits
//! of the number determine each other.

use vstd::prelude::*;

verus! {

/// The key of plus infinity.
pub const KEY_INFINITY: u64 = 0xFFF0_0000_0000_0000;

/// The key of minus infinity.
pub const KEY_NEG_INFINITY: u64 = 0x000F_FFFF_FFFF_FFFF;

/// The sign-magnitude value of the bits of a number: what orders the numbers, with minus zero
/// just below zero.
pub open spec fn sign_magnitude(bits: u64) -> int {
    if bits < 0x8000_0000_0000_0000 {
        bits as int
    } else {
        0x8000_0000_0000_0000 - bits - 1
    }
}

/// The order key of a number given by its bits.
pub open spec fn key_of(bits: u64) -> u64 {
    (sign_magnitude(bits) + 0x8000_0000_0000_0000) as u64
}

/// The order key of a number given by its bits: negative numbers inverted, the others moved
/// above them.
pub fn order_key(bits: u64) -> (k: u64)
    ensures
        k == key_of(bits),
{
    assert(bits >= 0x8000_0000_0000_0000 ==> !bits == 0xFFFF_FFFF_FFFF_FFFF - bits)
        by (bit_vector);
    assert(bits < 0x8000_0000_0000_0000 ==> bits | 0x8000_0000_0000_0000 == bits
        + 0x8000_0000_0000_0000) by (bit_vector);
    if bits >= 0x8000_0000_0000_0000 {
        !bits
    } else {
        bits | 0x8000_0000_0000_0000
    }
}

/// The bits of the number with order key `k`.
pub fn key_bits(k: u64) -> (bits: u64)
    ensures
        key_of(bits) == k,
{
    assert(k < 0x8000_0000_0000_0000 ==> !k == 0xFFFF_FFFF_FFFF_FFFF - k) by (bit_vector);
    if k < 0x8000_0000_0000_0000 {
        !k
    } else {
        k - 0x8000_0000_0000_0000
    }
}

/// Keys order as the numbers do, and two numbers with one key have the same bits.
pub proof fn key_orders_numbers(a: u64, b: u64)
    ensures
        key_of(a) < key_of(b) <==> sign_magnitude(a) < sign_magnitude(b),
        key_of(a) == key_of(b) ==> a == b,
{
}

/// Three coordinates.
#[derive(Clone, Copy, Debug, PartialEq, Eq, Structural)]
pub struct Point {
    pub x: u64,
    pub y: u64,
    pub z: u64,
}

pub open spec fn least(a: u64, b: u64) -> u64 {
    if a <= b {
        a
    } else {
        b
    }
}

pub open spec fn greatest(a: u64, b: u64) -> u64 {
    if a >= b {
        a
    } else {
        b
    }
}

impl Point {
    /// The coordinate on an axis: 0 is x, 1 is y, anything else z.
    pub open spec fn on(self, axis: usize) -> u64 {
        if axis == 0 {
            self.x
        } else if axis == 1 {
            self.y
        } else {
            self.z
        }
    }

    /// The coordinate on an axis: 0 is x, 1 is y, anything else z.
    pub fn coordinate(self, axis: usize) -> (k: u64)
        ensures
            k == self.on(axis),
    {
        if axis == 0 {
            self.x
        } else if axis == 1 {
            self.y
        } else {
            self.z
        }
    }
}

fn smaller(a: u64, b: u64) -> (r: u64)
    ensures
        r == least(a, b),
{
    if a <= b {
        a
    } else {
        b
    }
}

fn larger(a: u64, b: u64) -> (r: u64)
    ensures
        r == greatest(a, b),
{
    if a >= b {
        a
    } else {
        b
    }
}

/// An axis-aligned box.
#[derive(Clone, Copy, Debug, PartialEq, Eq, Structural)]
pub struct Aabb {
    pub min: Point,
    pub max: Point,
}

impl Aabb {
    /// The box of nothing: it starts at plus infinity and ends at minus infinity.
    pub open spec fn nothing() -> Aabb {
        Aabb {
            min: Point { x: KEY_INFINITY, y: KEY_INFINITY, z: KEY_INFINITY },
            max: Point { x: KEY_NEG_INFINITY, y: KEY_NEG_INFINITY, z: KEY_NEG_INFINITY },
        }
    }

    /// The smallest box around this one and `b`.
    pub open spec fn joined(self, b: Aabb) -> Aabb {
        Aabb {
            min: Point {
                x: least(self.min.x, b.min.x),
                y: least(self.min.y, b.min.y),
                z: least(self.min.z, b.min.z),
            },
            max: Point {
                x: greatest(self.max.x, b.max.x),
                y: greatest(self.max.y, b.max.y),
                z: greatest(self.max.z, b.max.z),
            },
        }
    }

    /// The smallest box around this one and the point `p`.
    pub open spec fn grown(self, p: Point) -> Aabb {
        self.joined(Aabb { min: p, max: p })
    }

    /// Whether `b` lies inside this box.
    pub open spec fn holds(self, b: Aabb) -> bool {
        &&& self.min.x <= b.min.x && self.min.y <= b.min.y && self.min.z <= b.min.z
        &&& self.max.x >= b.max.x && self.max.y >= b.max.y && self.max.z >= b.max.z
    }

    /// The box of nothing.
    pub fn empty() -> (r: Aabb)
        ensures
            r == Aabb::nothing(),
    {
        Aabb {
            min: Point { x: KEY_INFINITY, y: KEY_INFINITY, z: KEY_INFINITY },
            max: Point { x: KEY_NEG_INFINITY, y: KEY_NEG_INFINITY, z: KEY_NEG_INFINITY },
        }
    }

    /// The smallest box around this one and `b`.
    pub fn union(self, b: Aabb) -> (r: Aabb)
        ensures
            r == self.joined(b),
    {
        Aabb {
            min: Point {
                x: smaller(self.min.x, b.min.x),
                y: smaller(self.min.y, b.min.y),
                z: smaller(self.min.z, b.min.z),
            },
            max: Point {
                x: larger(self.max.x, b.max.x),
                y: larger(self.max.y, b.max.y),
                z: larger(self.max.z, b.max.z),
            },
        }
    }

    /// The smallest box around this one and the point `p`.
    pub fn grow(self, p: Point) -> (r: Aabb)
        ensures
            r == self.grown(p),
    {
        self.union(Aabb { min: p, max: p })
    }
}

} // verus!
