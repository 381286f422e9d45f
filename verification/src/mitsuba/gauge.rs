//! The numbers behind the text of a scene.
//!
//! What takes arithmetic with floating-point numbers is left to functions of the caller. What
//! follows from their answers is decided here, on the bits of the numbers.

use super::lights::Text3;
use super::props::{ColorModel, ColorText};
use crate::obj::Triple;
use crate::reals::Bits3;
use vstd::prelude::*;

verus! {

/// Functions that compute with the numbers of a scene.
pub struct Gauge<N, C, L, Q, S> {
    /// The number that a text stands for.
    pub number: N,
    /// The linear colour that three texts stand for.
    pub color: C,
    /// The length of a vector.
    pub length: L,
    /// Three quarters of a number.
    pub three_quarters: Q,
    /// A number as it is shown to the user.
    pub show: S,
}

/// What the functions of a gauge answer.
pub struct Readings {
    pub number: spec_fn(Seq<char>) -> u64,
    pub color: spec_fn(ColorModel) -> Bits3,
    pub length: spec_fn(Text3) -> u64,
    pub three_quarters: spec_fn(u64) -> u64,
    pub show: spec_fn(u64) -> Seq<char>,
}

/// Whether the functions of a gauge may be asked anything.
pub open spec fn answers<
    N: Fn(&str) -> u64,
    C: Fn(&ColorText) -> Bits3,
    L: Fn(&Triple) -> u64,
    Q: Fn(u64) -> u64,
    S: Fn(u64) -> String,
>(g: Gauge<N, C, L, Q, S>) -> bool {
    &&& forall|t: &str| #[trigger] g.number.requires((t,))
    &&& forall|c: &ColorText| #[trigger] g.color.requires((c,))
    &&& forall|t: &Triple| #[trigger] g.length.requires((t,))
    &&& forall|b: u64| #[trigger] g.three_quarters.requires((b,))
    &&& forall|b: u64| #[trigger] g.show.requires((b,))
}

/// Whether the length of a vector is what `len` says.
pub open spec fn measures<L: Fn(&Triple) -> u64>(length: L, len: spec_fn(Text3) -> u64) -> bool {
    forall|t: &Triple, r: u64| #[trigger] length.ensures((t,), r) ==> r == len(t@)
}

/// Whether the functions of a gauge answer as `m` says.
pub open spec fn reads<
    N: Fn(&str) -> u64,
    C: Fn(&ColorText) -> Bits3,
    L: Fn(&Triple) -> u64,
    Q: Fn(u64) -> u64,
    S: Fn(u64) -> String,
>(g: Gauge<N, C, L, Q, S>, m: Readings) -> bool {
    &&& forall|t: &str, r: u64| #[trigger] g.number.ensures((t,), r) ==> r == (m.number)(t@)
    &&& forall|c: &ColorText, r: Bits3| #[trigger] g.color.ensures((c,), r) ==> r == (m.color)(c@)
    &&& measures(g.length, m.length)
    &&& forall|b: u64, r: u64| #[trigger]
        g.three_quarters.ensures((b,), r) ==> r == (m.three_quarters)(b)
    &&& forall|b: u64, r: String| #[trigger] g.show.ensures((b,), r) ==> r@ == (m.show)(b)
}

} // verus!
