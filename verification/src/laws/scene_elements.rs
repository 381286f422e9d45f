//! Elements of a scene: which attribute, which child and which value counts.

use super::text_rules::{pieces_come_one_by_one, solid, tight, tight_text_is_left_alone};
use crate::mitsuba::props::{
    all_numbers, attr, attr_in, boolean_of, child, child_fits, child_index, color_of,
    color_or_float_of, float_of, int_of, int_signed_of, pieces, prop_value, triple_of, typ, vec3_of,
    ColorModel, NameRule,
};
use crate::mitsuba::xml::Node;
use crate::text::{is_float, parsed_signed, parsed_unsigned, replaced, trimmed};
use vstd::prelude::*;

verus! {

/// Whether an element has an attribute with this key, of which the last has this value.
pub open spec fn carries(n: Node, key: Seq<char>, v: Seq<char>) -> bool {
    exists|i: int|
        0 <= i < n.attrs.len() && #[trigger] n.attrs[i] == (key, v) && (forall|j: int|
            i < j < n.attrs.len() ==> (#[trigger] n.attrs[j]).0 != key)
}

/// Whether an element has no attribute with this key.
pub open spec fn lacks(n: Node, key: Seq<char>) -> bool {
    forall|i: int| 0 <= i < n.attrs.len() ==> (#[trigger] n.attrs[i]).0 != key
}

/// The elements with this tag and this name.
pub open spec fn named(tag: Seq<char>, name: Seq<char>) -> spec_fn(Node) -> bool {
    |c: Node| c.tag == tag && carries(c, "name"@, name)
}

/// The elements with this tag.
pub open spec fn tagged(tag: Seq<char>) -> spec_fn(Node) -> bool {
    |c: Node| c.tag == tag
}

/// The elements with this tag that have this name or none.
pub open spec fn unnamed_or(tag: Seq<char>, name: Seq<char>) -> spec_fn(Node) -> bool {
    |c: Node| c.tag == tag && (lacks(c, "name"@) || carries(c, "name"@, name))
}

/// Whether an element is the first of its kind.
pub open spec fn first(s: Seq<Node>, kind: spec_fn(Node) -> bool, c: Node) -> bool {
    exists|i: int|
        0 <= i < s.len() && #[trigger] s[i] == c && kind(c) && (forall|j: int|
            0 <= j < i ==> !kind(#[trigger] s[j]))
}

/// Whether there is no element of a kind.
pub open spec fn none_of(s: Seq<Node>, kind: spec_fn(Node) -> bool) -> bool {
    forall|j: int| 0 <= j < s.len() ==> !kind(#[trigger] s[j])
}

proof fn lemma_attr(a: Seq<(Seq<char>, Seq<char>)>, key: Seq<char>, i: int)
    requires
        -1 <= i < a.len(),
        i >= 0 ==> a[i].0 == key,
        forall|j: int| i < j < a.len() ==> (#[trigger] a[j]).0 != key,
    ensures
        i < 0 ==> attr_in(a, key) is None,
        i >= 0 ==> attr_in(a, key) == Some(a[i].1),
    decreases a.len(),
{
    if a.len() > 0 && i < a.len() - 1 {
        assert(a[a.len() - 1].0 != key);
        let d = a.drop_last();
        assert forall|j: int| i < j < d.len() implies (#[trigger] d[j]).0 != key by {
            assert(a[j].0 != key);
        }
        lemma_attr(d, key, i);
    }
}

/// An attribute has the value that was written last, and none if it was not written.
pub proof fn the_last_attribute_counts(n: Node, key: Seq<char>, v: Seq<char>)
    ensures
        carries(n, key, v) <==> attr(n, key) == Some(v),
        lacks(n, key) <==> attr(n, key) is None,
{
    if carries(n, key, v) {
        let i = choose|i: int|
            0 <= i < n.attrs.len() && #[trigger] n.attrs[i] == (key, v) && (forall|j: int|
                i < j < n.attrs.len() ==> (#[trigger] n.attrs[j]).0 != key);
        lemma_attr(n.attrs, key, i);
    }
    if lacks(n, key) {
        lemma_attr(n.attrs, key, -1);
    }
    lemma_attr_found(n.attrs, key);
    if attr(n, key) == Some(v) {
        let i = choose|i: int|
            0 <= i < n.attrs.len() && (#[trigger] n.attrs[i]).0 == key && Some(n.attrs[i].1) == attr_in(
                n.attrs,
                key,
            ) && (forall|j: int| i < j < n.attrs.len() ==> (#[trigger] n.attrs[j]).0 != key);
        assert(n.attrs[i] == (key, v));
    }
}

proof fn lemma_attr_found(a: Seq<(Seq<char>, Seq<char>)>, key: Seq<char>)
    ensures
        attr_in(a, key) is Some ==> exists|i: int|
            0 <= i < a.len() && (#[trigger] a[i]).0 == key && Some(a[i].1) == attr_in(a, key) && (
            forall|j: int| i < j < a.len() ==> (#[trigger] a[j]).0 != key),
        attr_in(a, key) is None ==> forall|i: int| 0 <= i < a.len() ==> (#[trigger] a[i]).0 != key,
    decreases a.len(),
{
    if a.len() > 0 {
        let d = a.drop_last();
        if a.last().0 == key {
            assert(a[a.len() - 1].0 == key);
        } else {
            lemma_attr_found(d, key);
            if attr_in(a, key) is Some {
                let i = choose|i: int|
                    0 <= i < d.len() && (#[trigger] d[i]).0 == key && Some(d[i].1) == attr_in(d, key)
                        && (forall|j: int| i < j < d.len() ==> (#[trigger] d[j]).0 != key);
                assert(a[i].0 == key);
                assert forall|j: int| i < j < a.len() implies (#[trigger] a[j]).0 != key by {
                    if j < d.len() {
                        assert(d[j].0 != key);
                    }
                }
            } else {
                assert forall|i: int| 0 <= i < a.len() implies (#[trigger] a[i]).0 != key by {
                    if i < d.len() {
                        assert(d[i].0 != key);
                    }
                }
            }
        }
    }
}

/// The type of an element is its attribute of that name, and empty without one.
pub proof fn types_are_attributes(n: Node, t: Seq<char>)
    ensures
        carries(n, "type"@, t) ==> typ(n) == t,
        lacks(n, "type"@) ==> typ(n) == Seq::<char>::empty(),
{
    reveal_strlit("");
    the_last_attribute_counts(n, "type"@, t);
    assert(""@ =~= Seq::<char>::empty());
}

/// The elements that a rule lets through.
pub open spec fn kind_for(tag: Seq<char>, rule: NameRule) -> spec_fn(Node) -> bool {
    match rule {
        NameRule::Any => tagged(tag),
        NameRule::Is(s) => named(tag, s@),
        NameRule::Missing => |c: Node| c.tag == tag && lacks(c, "name"@),
        NameRule::MissingOr(s) => unnamed_or(tag, s@),
    }
}

proof fn lemma_kind(c: Node, tag: Seq<char>, rule: NameRule)
    ensures
        child_fits(c, tag, rule) == kind_for(tag, rule)(c),
{
    match rule {
        NameRule::Is(s) => the_last_attribute_counts(c, "name"@, s@),
        NameRule::MissingOr(s) => the_last_attribute_counts(c, "name"@, s@),
        _ => the_last_attribute_counts(c, "name"@, Seq::empty()),
    }
}

proof fn lemma_child_index(s: Seq<Node>, tag: Seq<char>, rule: NameRule, i: int)
    requires
        0 <= i <= s.len(),
        i < s.len() ==> child_fits(s[i], tag, rule),
        forall|j: int| 0 <= j < i ==> !child_fits(#[trigger] s[j], tag, rule),
    ensures
        child_index(s, tag, rule) == i,
    decreases s.len(),
{
    if i > 0 {
        assert(!child_fits(s[0], tag, rule));
        let r = s.skip(1);
        assert forall|j: int| 0 <= j < i - 1 implies !child_fits(#[trigger] r[j], tag, rule) by {
            assert(!child_fits(s[j + 1], tag, rule));
        }
        lemma_child_index(r, tag, rule, i - 1);
    }
}

/// The child that counts is the first of its kind.
pub proof fn the_first_child_counts(n: Node, tag: Seq<char>, rule: NameRule, c: Node)
    ensures
        first(n.children, kind_for(tag, rule), c) ==> child(n, tag, rule) == Some(c),
        none_of(n.children, kind_for(tag, rule)) ==> child(n, tag, rule) is None,
{
    let s = n.children;
    let kind = kind_for(tag, rule);
    assert forall|d: Node| child_fits(d, tag, rule) == #[trigger] kind(d) by {
        lemma_kind(d, tag, rule);
    }
    if first(s, kind, c) {
        let i = choose|i: int|
            0 <= i < s.len() && #[trigger] s[i] == c && kind(c) && (forall|j: int|
                0 <= j < i ==> !kind(#[trigger] s[j]));
        assert forall|j: int| 0 <= j < i implies !child_fits(#[trigger] s[j], tag, rule) by {
            assert(!kind(s[j]));
        }
        assert(child_fits(s[i], tag, rule) == kind(s[i]));
        lemma_child_index(s, tag, rule, i);
    }
    if none_of(s, kind) {
        assert forall|j: int| 0 <= j < s.len() implies !child_fits(#[trigger] s[j], tag, rule) by {
            assert(!kind(s[j]));
        }
        lemma_child_index(s, tag, rule, s.len() as int);
    }
}

/// Whether an element says `<tag name="name" value="v"/>`, before anything else of that tag and
/// name.
pub open spec fn says(n: Node, tag: Seq<char>, name: Seq<char>, v: Seq<char>) -> bool {
    exists|c: Node| #[trigger] first(n.children, named(tag, name), c) && carries(c, "value"@, v)
}

/// Whether an element has nothing of this tag and name.
pub open spec fn silent(n: Node, tag: Seq<char>, name: Seq<char>) -> bool {
    none_of(n.children, named(tag, name))
}

/// A property has the value that its element says, and none if there is no such element.
pub proof fn properties_are_read(n: Node, tag: Seq<char>, name: &str, v: Seq<char>)
    ensures
        says(n, tag, name@, v) ==> prop_value(n, tag, name) == Some(v),
        silent(n, tag, name@) ==> prop_value(n, tag, name) is None,
{
    if says(n, tag, name@, v) {
        let c = choose|c: Node| #[trigger]
            first(n.children, named(tag, name@), c) && carries(c, "value"@, v);
        the_first_child_counts(n, tag, NameRule::Is(name), c);
        the_last_attribute_counts(c, "value"@, v);
    }
    if silent(n, tag, name@) {
        the_first_child_counts(n, tag, NameRule::Is(name), n);
    }
}

/// Whether an element gives a number.
pub open spec fn gives(n: Node, name: Seq<char>, v: Seq<char>) -> bool {
    exists|t: Seq<char>| #[trigger] says(n, "float"@, name, t) && trimmed(t) == v && is_float(v)
}

/// Numbers are read as they are written, without the white space around them; what is not a number
/// is no value.
pub proof fn numbers_are_read(n: Node, name: &str, v: Seq<char>)
    ensures
        gives(n, name@, v) ==> float_of(n, name) == Some(v),
        silent(n, "float"@, name@) ==> float_of(n, name) is None,
        says(n, "float"@, name@, v) && !is_float(trimmed(v)) ==> float_of(n, name) is None,
        says(n, "float"@, name@, v) && tight(v) && is_float(v) ==> gives(n, name@, v),
{
    properties_are_read(n, "float"@, name, v);
    if gives(n, name@, v) {
        let t = choose|t: Seq<char>| #[trigger]
            says(n, "float"@, name@, t) && trimmed(t) == v && is_float(v);
        properties_are_read(n, "float"@, name, t);
    }
    if tight(v) {
        tight_text_is_left_alone(v);
    }
}

/// Whole numbers are read from elements of their own tag.
pub proof fn whole_numbers_are_read(n: Node, name: &str, t: Seq<char>, v: int)
    requires
        says(n, "integer"@, name@, t),
    ensures
        parsed_unsigned(trimmed(t), usize::MAX as int) == Some(v) ==> int_of(n, name) == Some(v),
        parsed_signed(trimmed(t), i64::MIN as int, i64::MAX as int) == Some(v) ==> int_signed_of(
            n,
            name,
        ) == Some(v),
        parsed_unsigned(trimmed(t), usize::MAX as int) is None ==> int_of(n, name) is None,
        parsed_signed(trimmed(t), i64::MIN as int, i64::MAX as int) is None ==> int_signed_of(
            n,
            name,
        ) is None,
{
    properties_are_read(n, "integer"@, name, t);
}

/// Without such an element there is no whole number.
pub proof fn whole_numbers_may_be_missing(n: Node, name: &str)
    requires
        silent(n, "integer"@, name@),
    ensures
        int_of(n, name) is None,
        int_signed_of(n, name) is None,
{
    properties_are_read(n, "integer"@, name, Seq::empty());
}

/// A choice is what is written, `true` or `false`; anything else leaves it as it was.
pub proof fn choices_are_read(n: Node, name: &str, t: Seq<char>, default: bool)
    ensures
        silent(n, "boolean"@, name@) ==> boolean_of(n, name, default) == default,
        says(n, "boolean"@, name@, t) && trimmed(t) == seq!['t', 'r', 'u', 'e'] ==> boolean_of(
            n,
            name,
            default,
        ),
        says(n, "boolean"@, name@, t) && trimmed(t) == seq!['f', 'a', 'l', 's', 'e']
            ==> !boolean_of(n, name, default),
        says(n, "boolean"@, name@, t) && trimmed(t) != seq!['t', 'r', 'u', 'e'] && trimmed(t)
            != seq!['f', 'a', 'l', 's', 'e'] ==> boolean_of(n, name, default) == default,
{
    properties_are_read(n, "boolean"@, name, t);
    reveal_strlit("true");
    reveal_strlit("false");
    assert("true"@ =~= seq!['t', 'r', 'u', 'e']);
    assert("false"@ =~= seq!['f', 'a', 'l', 's', 'e']);
    assert("true"@.len() != "false"@.len());
}

/// A number without a comma in it.
pub open spec fn plain_number(s: Seq<char>) -> bool {
    solid(s) && is_float(s) && !s.contains(',') && !s.contains(' ')
}

proof fn lemma_replaced(a: Seq<char>)
    requires
        !a.contains(','),
    ensures
        replaced(a, ',', ' ') == a,
{
    assert forall|i: int| 0 <= i < a.len() implies replaced(a, ',', ' ')[i] == a[i] by {
        assert(a.contains(a[i]));
    }
    assert(replaced(a, ',', ' ') =~= a);
}

proof fn lemma_three_numbers(p: Seq<Seq<char>>, a: Seq<char>, b: Seq<char>, c: Seq<char>)
    requires
        plain_number(a) && plain_number(b) && plain_number(c),
        p == seq![a, b, c],
    ensures
        all_numbers(p) == Some(seq![a, b, c]),
        all_numbers(seq![a]) == Some(seq![a]),
{
    tight_text_is_left_alone(a);
    tight_text_is_left_alone(b);
    tight_text_is_left_alone(c);
    let none = Seq::<Seq<char>>::empty();
    assert(all_numbers(none) == Some(none));
    assert(seq![a].drop_last() =~= none);
    assert(none.push(a) =~= seq![a]);
    assert(seq![a, b].drop_last() =~= seq![a]);
    assert(seq![a].push(b) =~= seq![a, b]);
    assert(p.drop_last() =~= seq![a, b]);
    assert(seq![a, b].push(c) =~= seq![a, b, c]);
    assert(all_numbers(seq![a]) == Some(seq![a]));
    assert(all_numbers(seq![a, b]) == Some(seq![a, b]));
}

/// Three numbers with a blank or a comma between them are three numbers, in their order; one
/// number stands for three that are equal.
pub proof fn triples_are_read(a: Seq<char>, b: Seq<char>, c: Seq<char>)
    requires
        plain_number(a),
        plain_number(b),
        plain_number(c),
    ensures
        vec3_of(a + seq![' '] + (b + seq![' '] + c)) == Some((a, b, c)),
        vec3_of(a + seq![','] + (b + seq![','] + c)) == Some((a, b, c)),
        vec3_of(a) == Some((a, a, a)),
{
    let s = a + seq![' '] + (b + seq![' '] + c);
    let t = a + seq![','] + (b + seq![','] + c);
    lemma_replaced(a);
    lemma_replaced(b);
    lemma_replaced(c);
    assert(replaced(s, ',', ' ') =~= replaced(a, ',', ' ') + seq![' '] + (replaced(b, ',', ' ')
        + seq![' '] + replaced(c, ',', ' ')));
    assert(replaced(t, ',', ' ') =~= replaced(a, ',', ' ') + seq![' '] + (replaced(b, ',', ' ')
        + seq![' '] + replaced(c, ',', ' ')));
    pieces_come_one_by_one(c, ' ', Seq::empty());
    pieces_come_one_by_one(b, ' ', c);
    pieces_come_one_by_one(a, ' ', b + seq![' '] + c);
    assert(seq![a] + (seq![b] + seq![c]) =~= seq![a, b, c]);
    lemma_three_numbers(seq![a, b, c], a, b, c);
}

/// Whether an element gives three numbers by `x`, `y` and `z`.
pub open spec fn places(n: Node, tag: Seq<char>, name: Seq<char>, v: (Seq<char>, Seq<char>, Seq<char>)) -> bool {
    exists|c: Node| #[trigger]
        first(n.children, named(tag, name), c) && (exists|x: Seq<char>, y: Seq<char>, z: Seq<char>|
            carries(c, "x"@, x) && #[trigger] carries(c, "y"@, y) && #[trigger] carries(c, "z"@, z)
                && #[trigger] trimmed(x) == v.0 && trimmed(y) == v.1 && trimmed(z) == v.2 && is_float(v.0)
                && is_float(v.1) && is_float(v.2))
}

/// Positions and directions are read from `x`, `y` and `z`, each in its place.
pub proof fn coordinates_are_read(
    n: Node,
    tag: Seq<char>,
    name: &str,
    v: (Seq<char>, Seq<char>, Seq<char>),
)
    ensures
        places(n, tag, name@, v) ==> triple_of(n, tag, name) == Some(v),
        silent(n, tag, name@) ==> triple_of(n, tag, name) is None,
{
    if places(n, tag, name@, v) {
        let c = choose|c: Node| #[trigger]
            first(n.children, named(tag, name@), c) && (exists|
                x: Seq<char>,
                y: Seq<char>,
                z: Seq<char>,
            |
                carries(c, "x"@, x) && #[trigger] carries(c, "y"@, y) && #[trigger] carries(c, "z"@, z)
                    && #[trigger] trimmed(x) == v.0 && trimmed(y) == v.1 && trimmed(z) == v.2 && is_float(
                    v.0,
                ) && is_float(v.1) && is_float(v.2));
        let (x, y, z) = choose|x: Seq<char>, y: Seq<char>, z: Seq<char>|
            carries(c, "x"@, x) && #[trigger] carries(c, "y"@, y) && #[trigger] carries(c, "z"@, z)
                && #[trigger] trimmed(x) == v.0 && trimmed(y) == v.1 && trimmed(z) == v.2 && is_float(v.0)
                && is_float(v.1) && is_float(v.2);
        the_first_child_counts(n, tag, NameRule::Is(name), c);
        the_last_attribute_counts(c, "x"@, x);
        the_last_attribute_counts(c, "y"@, y);
        the_last_attribute_counts(c, "z"@, z);
    }
    if silent(n, tag, name@) {
        the_first_child_counts(n, tag, NameRule::Is(name), n);
    }
}

/// Positions and directions may be written as one value too.
pub proof fn coordinates_may_be_one_value(n: Node, tag: Seq<char>, name: &str, c: Node, t: Seq<char>)
    requires
        first(n.children, named(tag, name@), c),
        lacks(c, "x"@) || lacks(c, "y"@) || lacks(c, "z"@),
        carries(c, "value"@, t),
    ensures
        triple_of(n, tag, name) == vec3_of(t),
{
    the_first_child_counts(n, tag, NameRule::Is(name), c);
    the_last_attribute_counts(c, "x"@, t);
    the_last_attribute_counts(c, "y"@, t);
    the_last_attribute_counts(c, "z"@, t);
    the_last_attribute_counts(c, "value"@, t);
}

/// Whether an element gives a colour, and whether it is one of the sRGB space. A linear colour
/// comes before one of the sRGB space.
pub open spec fn paints(
    n: Node,
    name: Seq<char>,
    srgb: bool,
    v: (Seq<char>, Seq<char>, Seq<char>),
) -> bool {
    if srgb {
        silent(n, "rgb"@, name) && exists|t: Seq<char>| #[trigger]
            says(n, "srgb"@, name, t) && vec3_of(t) == Some(v)
    } else {
        exists|t: Seq<char>| #[trigger] says(n, "rgb"@, name, t) && vec3_of(t) == Some(v)
    }
}

/// Whether an element has no colour of this name.
pub open spec fn colourless(n: Node, name: Seq<char>) -> bool {
    silent(n, "rgb"@, name) && silent(n, "srgb"@, name)
}

/// Colours are read with their space; where a number may stand for a colour, it is a grey.
pub proof fn colours_are_read(
    n: Node,
    name: &str,
    srgb: bool,
    v: (Seq<char>, Seq<char>, Seq<char>),
    g: Seq<char>,
)
    ensures
        paints(n, name@, srgb, v) ==> color_of(n, name) == Some(ColorModel { srgb, v }),
        colourless(n, name@) ==> color_of(n, name) is None,
        paints(n, name@, srgb, v) ==> color_or_float_of(n, name) == Some(ColorModel { srgb, v }),
        colourless(n, name@) && gives(n, name@, g) ==> color_or_float_of(n, name) == Some(
            ColorModel { srgb: false, v: (g, g, g) },
        ),
        colourless(n, name@) && silent(n, "float"@, name@) ==> color_or_float_of(n, name) is None,
{
    numbers_are_read(n, name, g);
    properties_are_read(n, "rgb"@, name, g);
    properties_are_read(n, "srgb"@, name, g);
    if silent(n, "rgb"@, name@) {
        the_first_child_counts(n, "rgb"@, NameRule::Is(name), n);
    }
    if silent(n, "srgb"@, name@) {
        the_first_child_counts(n, "srgb"@, NameRule::Is(name), n);
    }
    if paints(n, name@, srgb, v) {
        let tag = if srgb {
            "srgb"@
        } else {
            "rgb"@
        };
        let t = choose|t: Seq<char>| #[trigger] says(n, tag, name@, t) && vec3_of(t) == Some(v);
        let c = choose|c: Node| #[trigger]
            first(n.children, named(tag, name@), c) && carries(c, "value"@, t);
        the_first_child_counts(n, tag, NameRule::Is(name), c);
        the_last_attribute_counts(c, "value"@, t);
    }
}

/// A comma may be followed by a blank; two numbers are no three.
pub proof fn commas_may_be_followed_by_blanks(a: Seq<char>, b: Seq<char>, c: Seq<char>)
    requires
        plain_number(a),
        plain_number(b),
        plain_number(c),
    ensures
        vec3_of(a + seq![',', ' '] + (b + seq![',', ' '] + c)) == Some((a, b, c)),
        vec3_of(a + seq![' '] + b) is None,
{
    let s = a + seq![',', ' '] + (b + seq![',', ' '] + c);
    let none = Seq::<char>::empty();
    lemma_replaced(a);
    lemma_replaced(b);
    lemma_replaced(c);
    let bc = b + seq![' '] + (none + seq![' '] + c);
    assert(replaced(s, ',', ' ') =~= replaced(a, ',', ' ') + seq![' '] + (none + seq![' '] + (replaced(
        b,
        ',',
        ' ',
    ) + seq![' '] + (none + seq![' '] + replaced(c, ',', ' ')))));
    pieces_come_one_by_one(c, ' ', none);
    pieces_come_one_by_one(none, ' ', c);
    pieces_come_one_by_one(b, ' ', none + seq![' '] + c);
    pieces_come_one_by_one(none, ' ', bc);
    pieces_come_one_by_one(a, ' ', none + seq![' '] + bc);
    let p = pieces(s);
    assert(p =~= seq![a, none, b, none, c]);
    lemma_three_numbers(seq![a, b, c], a, b, c);
    tight_text_is_left_alone(a);
    tight_text_is_left_alone(b);
    tight_text_is_left_alone(c);
    super::text_rules::trimming_takes_only_space(none, none, none);
    assert(none + none + none =~= none);
    assert(all_numbers(seq![a]) == Some(seq![a]));
    assert(seq![a, none].drop_last() =~= seq![a]);
    assert(all_numbers(seq![a, none]) == Some(seq![a]));
    assert(seq![a, none, b].drop_last() =~= seq![a, none]);
    assert(seq![a].push(b) =~= seq![a, b]);
    assert(all_numbers(seq![a, none, b]) == Some(seq![a, b]));
    assert(seq![a, none, b, none].drop_last() =~= seq![a, none, b]);
    assert(all_numbers(seq![a, none, b, none]) == Some(seq![a, b]));
    assert(p.drop_last() =~= seq![a, none, b, none]);
    assert(seq![a, b].push(c) =~= seq![a, b, c]);
    let t = a + seq![' '] + b;
    assert(replaced(t, ',', ' ') =~= replaced(a, ',', ' ') + seq![' '] + replaced(b, ',', ' '));
    pieces_come_one_by_one(b, ' ', none);
    pieces_come_one_by_one(a, ' ', b);
    assert(pieces(t) =~= seq![a, b]);
    assert(seq![a, b].drop_last() =~= seq![a]);
}

} // verus!
