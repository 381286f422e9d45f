//! Versions and the limits of paths.

use crate::text::{
    all_digits, digits_value, parse_i64, parsed_signed, parsed_unsigned, split_at_char, split_char,
    texts,
};
use vstd::prelude::*;

verus! {

/// The version of this crate.
pub const VERSION: &'static str = "0.2.1";

/// The revision of what the renderer computes, derived from [`VERSION`]: checkpoints written by
/// another revision are not resumed.
pub const RENDER_REVISION: u32 = 2001;

/// The longest path by default: nine vertices, so at most eight scatterings.
pub const MAX_DEPTH: usize = 9;

/// The path length from which paths are ended by chance, by default.
pub const RR_DEPTH: usize = 4;

/// Whether `s` is one component of a version: digits, and at least one.
pub open spec fn is_component(s: Seq<char>) -> bool {
    s.len() > 0 && all_digits(s)
}

/// The revision of a version `major.minor.patch`: `major * 1_000_000 + minor * 1_000 + patch`.
/// There is none unless the version has exactly three components, minor and patch are below 1000
/// and the number fits in 32 bits.
pub open spec fn revision_of(v: Seq<char>) -> Option<int> {
    let parts = split_at_char(v, '.');
    if parts.len() == 3 && is_component(parts[0]) && is_component(parts[1]) && is_component(
        parts[2],
    ) {
        let n = digits_value(parts[0]) * 1_000_000 + digits_value(parts[1]) * 1_000 + digits_value(
            parts[2],
        );
        if digits_value(parts[1]) < 1000 && digits_value(parts[2]) < 1000 && n <= u32::MAX {
            Some(n)
        } else {
            None
        }
    } else {
        None
    }
}

/// The number of a version component that is known to be small.
fn component(s: &[char]) -> (r: i64)
    requires
        is_component(s@),
        digits_value(s@) <= u32::MAX,
    ensures
        r == digits_value(s@),
{
    proof {
        assert(crate::text::is_digit(s@[0]));
        assert(parsed_unsigned(s@, i64::MAX as int) == Some(digits_value(s@)));
        assert(parsed_signed(s@, i64::MIN as int, i64::MAX as int) == Some(digits_value(s@)));
    }
    match parse_i64(s) {
        Some(v) => v,
        None => 0,
    }
}

proof fn lemma_digits_nonneg(s: Seq<char>)
    requires
        all_digits(s),
    ensures
        digits_value(s) >= 0,
    decreases s.len(),
{
    if s.len() > 0 {
        assert(crate::text::is_digit(s.last()));
        assert(all_digits(s.drop_last())) by {
            assert forall|i: int| 0 <= i < s.drop_last().len() implies crate::text::is_digit(
                #[trigger] s.drop_last()[i],
            ) by {
                assert(crate::text::is_digit(s[i]));
            }
        }
        lemma_digits_nonneg(s.drop_last());
    }
}

/// The revision of a version.
pub fn revision_from_version(v: &str) -> (r: u32)
    requires
        revision_of(v@) is Some,
    ensures
        revision_of(v@) == Some(r as int),
{
    let chars = crate::text::chars_of(v);
    let parts = split_char(&chars, '.');
    proof {
        let p = split_at_char(v@, '.');
        assert(texts(parts@)[0] == parts@[0]@);
        assert(texts(parts@)[1] == parts@[1]@);
        assert(texts(parts@)[2] == parts@[2]@);
        lemma_digits_nonneg(p[0]);
        lemma_digits_nonneg(p[1]);
        lemma_digits_nonneg(p[2]);
    }
    let major: i64 = component(parts[0]);
    let minor: i64 = component(parts[1]);
    let patch: i64 = component(parts[2]);
    (major * 1_000_000 + minor * 1_000 + patch) as u32
}

/// [`RENDER_REVISION`] is the revision of [`VERSION`].
pub proof fn render_revision_is_that_of_the_version()
    ensures
        revision_of("0.2.1"@) == Some(RENDER_REVISION as int),
{
    let v = "0.2.1"@;
    reveal_strlit("0.2.1");
    reveal_with_fuel(crate::text::index_of_char, 4);
    reveal_with_fuel(split_at_char, 4);
    reveal_with_fuel(digits_value, 3);
    assert(v.skip(1)[0] == '.');
    assert(v.take(1) =~= seq!['0']);
    let w = v.skip(2);
    assert(w =~= seq!['2', '.', '1']);
    assert(w.take(1) =~= seq!['2']);
    let x = w.skip(2);
    assert(x =~= seq!['1']);
    assert(split_at_char(x, '.') =~= seq![x]);
    assert(split_at_char(w, '.') =~= seq![seq!['2'], x]);
    assert(split_at_char(v, '.') =~= seq![seq!['0'], seq!['2'], x]);
    assert(seq!['0'].drop_last() =~= Seq::<char>::empty());
    assert(seq!['2'].drop_last() =~= Seq::<char>::empty());
    assert(seq!['1'].drop_last() =~= Seq::<char>::empty());
}

} // verus!
