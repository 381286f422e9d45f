//! Where a texture is read: wrapping and clamping of texel coordinates.

use crate::text::same_str;
use vstd::prelude::*;

verus! {

/// What lies beyond the edge of a texture.
#[derive(Clone, Copy, Debug, PartialEq, Eq, Structural)]
pub enum Wrap {
    /// The texture again.
    Repeat,
    /// Its outermost texels.
    Clamp,
}

/// What a name stands for.
pub open spec fn wrap_named(s: Seq<char>) -> Option<Wrap> {
    if s == "repeat"@ {
        Some(Wrap::Repeat)
    } else if s == "clamp"@ {
        Some(Wrap::Clamp)
    } else {
        None
    }
}

impl Wrap {
    /// What a name stands for: `repeat` or `clamp`.
    pub fn from_str(s: &str) -> (r: Option<Self>)
        ensures
            r == wrap_named(s@),
    {
        if same_str(s, "repeat") {
            Some(Wrap::Repeat)
        } else if same_str(s, "clamp") {
            Some(Wrap::Clamp)
        } else {
            None
        }
    }
}

/// The texel coordinate that `x` stands for on an axis of `n` texels.
pub open spec fn wrapped(wrap: Wrap, x: int, n: int) -> int {
    match wrap {
        Wrap::Repeat => x % n,
        Wrap::Clamp => if x < 0 {
            0
        } else if x >= n {
            n - 1
        } else {
            x
        },
    }
}

/// A wrapped coordinate lies on the texture, and one that lies there is left alone.
pub proof fn wrapped_is_on_the_texture(wrap: Wrap, x: int, n: int)
    requires
        n >= 1,
    ensures
        0 <= wrapped(wrap, x, n) < n,
        0 <= x < n ==> wrapped(wrap, x, n) == x,
{
    if 0 <= x < n {
        vstd::arithmetic::div_mod::lemma_small_mod(x as nat, n as nat);
    }
}

/// The texel coordinate that `x` stands for on an axis of `n` texels.
pub fn wrap_coordinate(wrap: Wrap, x: i64, n: usize) -> (r: usize)
    requires
        1 <= n <= i64::MAX,
    ensures
        r == wrapped(wrap, x as int, n as int),
        r < n,
{
    match wrap {
        Wrap::Repeat => {
            let m: u64 = n as u64;
            if x >= 0 {
                (x as u64 % m) as usize
            } else {
                let a: u64 = (-(x + 1)) as u64;
                let k: u64 = a % m;
                proof {
                    let q = (a / m) as int;
                    vstd::arithmetic::div_mod::lemma_fundamental_div_mod(a as int, m as int);
                    assert(x == (-(q + 1)) * m + (m - 1 - k)) by (nonlinear_arith)
                        requires
                            a == m * q + k,
                            x == -a - 1,
                    ;
                    vstd::arithmetic::div_mod::lemma_fundamental_div_mod_converse(
                        x as int,
                        m as int,
                        -(q + 1),
                        m - 1 - k,
                    );
                }
                (m - 1 - k) as usize
            }
        },
        Wrap::Clamp => {
            if x < 0 {
                0
            } else if x as u64 >= n as u64 {
                n - 1
            } else {
                x as usize
            }
        },
    }
}

} // verus!
