//! Reading the properties of an element.
//!
//! Numbers stay text: what is read is known to be a number, and is kept as it is written.

use super::xml::{lemma_node_children, nodes, Element, Node};
use crate::decimal::{decimal_text, to_decimal};
use crate::mtl::opt_text;
use crate::obj::{strings, Triple};
use crate::text::{
    chars_of, copied, float, is_float, is_word, parse_i64, parse_usize, parsed_signed,
    parsed_unsigned, replace_char, replaced, same_str, split_at_char, split_char, string_of,
    texts, trim, trimmed,
};
use vstd::prelude::*;

verus! {

/// The text of a string slice that may be missing.
pub open spec fn str_text(o: Option<&str>) -> Option<Seq<char>> {
    match o {
        Some(s) => Some(s@),
        None => None,
    }
}

/// Adds a warning made of one piece.
pub fn warn1(out: &mut Vec<String>, a: &str)
    ensures
        strings(final(out)@) == strings(old(out)@).push(a@),
{
    let ghost before = out@;
    out.push(copied(a));
    assert(strings(out@) =~= strings(before).push(a@));
}

/// Adds a warning made of three pieces.
pub fn warn3(out: &mut Vec<String>, a: &str, b: &str, c: &str)
    ensures
        strings(final(out)@) == strings(old(out)@).push(a@ + b@ + c@),
{
    let mut t = chars_of(a);
    let mut x = chars_of(b);
    let mut y = chars_of(c);
    t.append(&mut x);
    t.append(&mut y);
    let ghost before = out@;
    assert(t@ =~= a@ + b@ + c@);
    out.push(string_of(&t));
    assert(strings(out@) =~= strings(before).push(a@ + b@ + c@));
}

/// Adds a warning made of five pieces.
pub fn warn5(out: &mut Vec<String>, a: &str, b: &str, c: &str, d: &str, e: &str)
    ensures
        strings(final(out)@) == strings(old(out)@).push(a@ + b@ + c@ + d@ + e@),
{
    let mut t = chars_of(a);
    let mut x = chars_of(b);
    let mut y = chars_of(c);
    let mut z = chars_of(d);
    let mut w = chars_of(e);
    t.append(&mut x);
    t.append(&mut y);
    t.append(&mut z);
    t.append(&mut w);
    let ghost before = out@;
    assert(t@ =~= a@ + b@ + c@ + d@ + e@);
    out.push(string_of(&t));
    assert(strings(out@) =~= strings(before).push(a@ + b@ + c@ + d@ + e@));
}

/// A number in decimal, with a sign if it is negative.
pub open spec fn signed_text(i: int) -> Seq<char> {
    if i < 0 {
        "-"@ + decimal_text((-i) as nat)
    } else {
        decimal_text(i as nat)
    }
}

/// A number in decimal, with a sign if it is negative.
pub fn to_signed(i: i64) -> (r: String)
    ensures
        r@ == signed_text(i as int),
{
    if i < 0 {
        let mut t = chars_of("-");
        let n: u64 = (-(i + 1)) as u64 + 1;
        let mut d = to_decimal(n);
        t.append(&mut d);
        assert(t@ =~= signed_text(i as int));
        string_of(&t)
    } else {
        let d = to_decimal(i as u64);
        string_of(&d)
    }
}

/// The value of attribute `key`.
pub open spec fn attr(n: Node, key: Seq<char>) -> Option<Seq<char>> {
    attr_in(n.attrs, key)
}

/// The value of the last attribute `key`.
pub open spec fn attr_in(a: Seq<(Seq<char>, Seq<char>)>, key: Seq<char>) -> Option<Seq<char>>
    decreases a.len(),
{
    if a.len() == 0 {
        None
    } else if a.last().0 == key {
        Some(a.last().1)
    } else {
        attr_in(a.drop_last(), key)
    }
}

/// The type of an element, or nothing.
pub open spec fn typ(n: Node) -> Seq<char> {
    match attr(n, "type"@) {
        Some(t) => t,
        None => ""@,
    }
}

/// What the name of a child must be.
#[derive(Clone, Copy)]
pub enum NameRule<'a> {
    Any,
    Is(&'a str),
    Missing,
    MissingOr(&'a str),
}

pub open spec fn name_fits(rule: NameRule, name: Option<Seq<char>>) -> bool {
    match rule {
        NameRule::Any => true,
        NameRule::Is(s) => name == Some(s@),
        NameRule::Missing => name is None,
        NameRule::MissingOr(s) => name is None || name == Some(s@),
    }
}

pub open spec fn child_fits(c: Node, tag: Seq<char>, rule: NameRule) -> bool {
    c.tag == tag && name_fits(rule, attr(c, "name"@))
}

/// Where the first child with this tag and name is, or how many children there are.
pub open spec fn child_index(c: Seq<Node>, tag: Seq<char>, rule: NameRule) -> int
    decreases c.len(),
{
    if c.len() == 0 || child_fits(c[0], tag, rule) {
        0
    } else {
        1 + child_index(c.skip(1), tag, rule)
    }
}

pub proof fn lemma_child_index(c: Seq<Node>, tag: Seq<char>, rule: NameRule)
    ensures
        0 <= child_index(c, tag, rule) <= c.len(),
        child_index(c, tag, rule) < c.len() ==> child_fits(
            c[child_index(c, tag, rule)],
            tag,
            rule,
        ),
        forall|i: int| 0 <= i < child_index(c, tag, rule) ==> !child_fits(c[i], tag, rule),
    decreases c.len(),
{
    if c.len() > 0 && !child_fits(c[0], tag, rule) {
        lemma_child_index(c.skip(1), tag, rule);
        assert forall|i: int| 0 <= i < child_index(c, tag, rule) implies !child_fits(
            c[i],
            tag,
            rule,
        ) by {
            if i > 0 {
                assert(c.skip(1)[i - 1] == c[i]);
            }
        }
    }
}

/// The first child with this tag and name.
pub open spec fn child(n: Node, tag: Seq<char>, rule: NameRule) -> Option<Node> {
    let i = child_index(n.children, tag, rule);
    if i < n.children.len() {
        Some(n.children[i])
    } else {
        None
    }
}

/// The value of a property.
pub open spec fn prop_value(n: Node, tag: Seq<char>, name: &str) -> Option<Seq<char>> {
    match child(n, tag, NameRule::Is(name)) {
        None => None,
        Some(c) => attr(c, "value"@),
    }
}

/// A text as a number: without white space around it.
pub open spec fn number_of(s: Seq<char>) -> Option<Seq<char>> {
    if is_float(trimmed(s)) {
        Some(trimmed(s))
    } else {
        None
    }
}

/// A floating-point property.
pub open spec fn float_of(n: Node, name: &str) -> Option<Seq<char>> {
    match prop_value(n, "float"@, name) {
        None => None,
        Some(v) => number_of(v),
    }
}

/// A whole number property that is not negative.
pub open spec fn int_of(n: Node, name: &str) -> Option<int> {
    match prop_value(n, "integer"@, name) {
        None => None,
        Some(v) => parsed_unsigned(trimmed(v), usize::MAX as int),
    }
}

/// A whole number property.
pub open spec fn int_signed_of(n: Node, name: &str) -> Option<int> {
    match prop_value(n, "integer"@, name) {
        None => None,
        Some(v) => parsed_signed(trimmed(v), i64::MIN as int, i64::MAX as int),
    }
}

/// A boolean property, or the default.
pub open spec fn boolean_of(n: Node, name: &str, default: bool) -> bool {
    match prop_value(n, "boolean"@, name) {
        None => default,
        Some(v) => if trimmed(v) == "true"@ {
            true
        } else if trimmed(v) == "false"@ {
            false
        } else {
            default
        },
    }
}

pub open spec fn bool_text(b: bool) -> Seq<char> {
    if b {
        "true"@
    } else {
        "false"@
    }
}

/// What reading a boolean property warns of: a value that is neither `true` nor `false`, or none.
pub open spec fn boolean_warnings(n: Node, name: &str, default: bool) -> Seq<Seq<char>> {
    match child(n, "boolean"@, NameRule::Is(name)) {
        None => Seq::empty(),
        Some(c) => match attr(c, "value"@) {
            None => seq![
                "boolean '"@ + name@ + "' has no value attribute; using "@ + bool_text(default)
                    + ""@,
            ],
            Some(v) => if trimmed(v) == "true"@ || trimmed(v) == "false"@ {
                Seq::empty()
            } else {
                seq![
                    "boolean '"@ + name@ + "' has invalid value '"@ + trimmed(v) + (
                    "' (expected true or false); using "@ + bool_text(default)),
                ]
            },
        },
    }
}

/// Three numbers, or one number for all three, between commas or blanks.
pub open spec fn vec3_of(s: Seq<char>) -> Option<(Seq<char>, Seq<char>, Seq<char>)> {
    match numbers_between(s) {
        None => None,
        Some(v) => if v.len() == 3 {
            Some((v[0], v[1], v[2]))
        } else if v.len() == 1 {
            Some((v[0], v[0], v[0]))
        } else {
            None
        },
    }
}

/// The pieces between commas or blanks.
pub open spec fn pieces(s: Seq<char>) -> Seq<Seq<char>> {
    split_at_char(replaced(s, ',', ' '), ' ')
}

/// The pieces that hold more than white space, each a number; nothing if one is not.
pub open spec fn numbers_between(s: Seq<char>) -> Option<Seq<Seq<char>>> {
    all_numbers(pieces(s))
}

pub open spec fn all_numbers(p: Seq<Seq<char>>) -> Option<Seq<Seq<char>>>
    decreases p.len(),
{
    if p.len() == 0 {
        Some(Seq::empty())
    } else {
        match all_numbers(p.drop_last()) {
            None => None,
            Some(before) => if trimmed(p.last()).len() == 0 {
                Some(before)
            } else {
                match number_of(p.last()) {
                    None => None,
                    Some(x) => Some(before.push(x)),
                }
            },
        }
    }
}

/// The numbers among the pieces, whatever else there is.
pub open spec fn some_numbers(p: Seq<Seq<char>>) -> Seq<Seq<char>>
    decreases p.len(),
{
    if p.len() == 0 {
        Seq::empty()
    } else {
        match number_of(p.last()) {
            None => some_numbers(p.drop_last()),
            Some(x) => some_numbers(p.drop_last()).push(x),
        }
    }
}

/// A property of three coordinates: attributes `x`, `y` and `z` if it has all three, else its
/// value.
pub open spec fn triple_of(n: Node, tag: Seq<char>, name: &str) -> Option<
    (Seq<char>, Seq<char>, Seq<char>),
> {
    match child(n, tag, NameRule::Is(name)) {
        None => None,
        Some(c) => match (attr(c, "x"@), attr(c, "y"@), attr(c, "z"@)) {
            (Some(x), Some(y), Some(z)) => match (number_of(x), number_of(y), number_of(z)) {
                (Some(a), Some(b), Some(d)) => Some((a, b, d)),
                _ => None,
            },
            _ => match attr(c, "value"@) {
                None => None,
                Some(v) => vec3_of(v),
            },
        },
    }
}

/// A colour as it is written, and whether it is gamma-encoded.
pub struct ColorModel {
    pub srgb: bool,
    pub v: (Seq<char>, Seq<char>, Seq<char>),
}

/// A colour property: `rgb`, linear, if there is one, else `srgb`, gamma-encoded.
pub open spec fn color_of(n: Node, name: &str) -> Option<ColorModel> {
    let srgb = child(n, "rgb"@, NameRule::Is(name)) is None;
    let c = if srgb {
        child(n, "srgb"@, NameRule::Is(name))
    } else {
        child(n, "rgb"@, NameRule::Is(name))
    };
    match c {
        None => None,
        Some(e) => match attr(e, "value"@) {
            None => None,
            Some(v) => match vec3_of(v) {
                None => None,
                Some(t) => Some(ColorModel { srgb, v: t }),
            },
        },
    }
}

/// A grey.
pub open spec fn grey(s: Seq<char>) -> ColorModel {
    ColorModel { srgb: false, v: (s, s, s) }
}

/// A colour property, or a floating-point one for a grey.
pub open spec fn color_or_float_of(n: Node, name: &str) -> Option<ColorModel> {
    match color_of(n, name) {
        Some(c) => Some(c),
        None => match float_of(n, name) {
            Some(v) => Some(grey(v)),
            None => None,
        },
    }
}

/// A colour as it is written.
pub struct ColorText {
    /// Whether it is gamma-encoded.
    pub srgb: bool,
    pub v: Triple,
}

impl View for ColorText {
    type V = ColorModel;

    open spec fn view(&self) -> ColorModel {
        ColorModel { srgb: self.srgb, v: self.v@ }
    }
}

pub open spec fn opt_color(o: Option<ColorText>) -> Option<ColorModel> {
    match o {
        Some(c) => Some(c@),
        None => None,
    }
}

pub open spec fn opt_triple(o: Option<Triple>) -> Option<(Seq<char>, Seq<char>, Seq<char>)> {
    match o {
        Some(c) => Some(c@),
        None => None,
    }
}

/// Three times the same number.
pub fn triple(s: &str) -> (r: Triple)
    ensures
        r@ == (s@, s@, s@),
{
    Triple { x: copied(s), y: copied(s), z: copied(s) }
}

/// A grey.
pub fn grey_text(s: &str) -> (r: ColorText)
    ensures
        r@ == grey(s@),
{
    ColorText { srgb: false, v: triple(s) }
}

fn fits(rule: NameRule, name: Option<&str>) -> (r: bool)
    ensures
        r == name_fits(rule, str_text(name)),
{
    match rule {
        NameRule::Any => true,
        NameRule::Is(s) => match name {
            Some(n) => same_str(n, s),
            None => false,
        },
        NameRule::Missing => name.is_none(),
        NameRule::MissingOr(s) => match name {
            Some(n) => same_str(n, s),
            None => true,
        },
    }
}

/// A number, without white space around it.
pub fn parse_number(s: &str) -> (r: Option<String>)
    ensures
        opt_text(r) == number_of(s@),
{
    let c = chars_of(s);
    let t = trim(&c);
    if float(t) {
        Some(string_of(t))
    } else {
        None
    }
}

/// Three numbers, or one number for all three.
pub fn parse_vec3(s: &str) -> (r: Option<Triple>)
    ensures
        opt_triple(r) == vec3_of(s@),
{
    let v = match parse_numbers(s) {
        Some(v) => v,
        None => {
            return None;
        },
    };
    assert(strings(v@).len() == v@.len());
    if v.len() == 3 {
        Some(
            Triple { x: copied(v[0].as_str()), y: copied(v[1].as_str()), z: copied(v[2].as_str()) },
        )
    } else if v.len() == 1 {
        Some(triple(v[0].as_str()))
    } else {
        None
    }
}

fn parse_numbers(s: &str) -> (r: Option<Vec<String>>)
    ensures
        match numbers_between(s@) {
            Some(v) => r matches Some(w) && strings(w@) == v,
            None => r is None,
        },
{
    let c = chars_of(s);
    let blank = replace_char(&c, ',', ' ');
    let b = chars_of(blank.as_str());
    let p = split_char(&b, ' ');
    let ghost all = pieces(s@);
    let mut v: Vec<String> = Vec::new();
    let mut i: usize = 0;
    assert(all.take(0) =~= Seq::<Seq<char>>::empty());
    assert(strings(v@) =~= Seq::<Seq<char>>::empty());
    while i < p.len()
        invariant
            i <= p@.len(),
            all == pieces(s@),
            texts(p@) == all,
            all_numbers(all.take(i as int)) == Some(strings(v@)),
        decreases p@.len() - i,
    {
        proof {
            assert(all.take(i + 1).drop_last() =~= all.take(i as int));
            assert(all[i as int] == p@[i as int]@);
        }
        let t = trim(p[i]);
        if t.len() > 0 {
            if float(t) {
                let ghost before = v@;
                v.push(string_of(t));
                assert(strings(v@) =~= strings(before).push(t@));
            } else {
                proof {
                    lemma_not_all_numbers(all, i as int);
                }
                return None;
            }
        }
        i += 1;
    }
    assert(all.take(i as int) =~= all);
    Some(v)
}

proof fn lemma_not_all_numbers(p: Seq<Seq<char>>, i: int)
    requires
        0 <= i < p.len(),
        all_numbers(p.take(i + 1)) is None,
    ensures
        all_numbers(p) is None,
    decreases p.len(),
{
    if i == p.len() - 1 {
        assert(p.take(i + 1) =~= p);
    } else {
        assert(p.drop_last().take(i + 1) =~= p.take(i + 1));
        lemma_not_all_numbers(p.drop_last(), i);
    }
}

/// The numbers between commas or blanks, whatever else there is.
pub fn parse_some_numbers(s: &str) -> (r: Vec<String>)
    ensures
        strings(r@) == some_numbers(pieces(s@)),
{
    let c = chars_of(s);
    let blank = replace_char(&c, ',', ' ');
    let b = chars_of(blank.as_str());
    let p = split_char(&b, ' ');
    let ghost all = pieces(s@);
    let mut v: Vec<String> = Vec::new();
    let mut i: usize = 0;
    assert(all.take(0) =~= Seq::<Seq<char>>::empty());
    assert(strings(v@) =~= Seq::<Seq<char>>::empty());
    while i < p.len()
        invariant
            i <= p@.len(),
            all == pieces(s@),
            texts(p@) == all,
            some_numbers(all.take(i as int)) == strings(v@),
        decreases p@.len() - i,
    {
        proof {
            assert(all.take(i + 1).drop_last() =~= all.take(i as int));
            assert(all[i as int] == p@[i as int]@);
        }
        let t = trim(p[i]);
        if float(t) {
            let ghost before = v@;
            v.push(string_of(t));
            assert(strings(v@) =~= strings(before).push(t@));
        }
        i += 1;
    }
    assert(all.take(i as int) =~= all);
    v
}

impl Element {
    /// The value of an attribute.
    pub fn attr(&self, key: &str) -> (r: Option<&str>)
        ensures
            str_text(r) == attr(self.node(), key@),
    {
        let ghost all = self.node().attrs;
        let k = chars_of(key);
        let mut i: usize = self.attrs.len();
        assert(all.take(i as int) =~= all);
        while i > 0
            invariant
                i <= self.attrs@.len(),
                k@ == key@,
                all == self.node().attrs,
                attr_in(all, key@) == attr_in(all.take(i as int), key@),
            decreases i,
        {
            proof {
                assert(all.take(i as int).last() == (
                    self.attrs@[i - 1].0@,
                    self.attrs@[i - 1].1@,
                ));
                assert(all.take(i as int).drop_last() =~= all.take(i - 1));
            }
            if is_word(&k, self.attrs[i - 1].0.as_str()) {
                return Some(self.attrs[i - 1].1.as_str());
            }
            i -= 1;
        }
        None
    }

    /// The type, or nothing.
    pub fn typ(&self) -> (r: &str)
        ensures
            r@ == typ(self.node()),
    {
        match self.attr("type") {
            Some(t) => t,
            None => "",
        }
    }

    /// Whether this is an element with this tag.
    pub fn is_tag(&self, tag: &str) -> (r: bool)
        ensures
            r == (self.node().tag == tag@),
    {
        same_str(self.tag.as_str(), tag)
    }

    /// Whether this is the type.
    pub fn is_typ(&self, t: &str) -> (r: bool)
        ensures
            r == (typ(self.node()) == t@),
    {
        same_str(self.typ(), t)
    }

    /// Where the first child with this tag and name is, or how many children there are.
    pub fn find_child(&self, tag: &str, rule: NameRule) -> (r: usize)
        ensures
            r == child_index(self.node().children, tag@, rule),
            r <= self.children@.len(),
            self.children@.len() == self.node().children.len(),
            r < self.children@.len() ==> self.children@[r as int].node() == self.node().children[
                r as int
            ] && decreases_to!(self => self.children@[r as int]),
    {
        let ghost all = self.node().children;
        proof {
            lemma_node_children(self);
        }
        let mut i: usize = 0;
        assert(all.skip(0) =~= all);
        while i < self.children.len()
            invariant
                i <= self.children@.len(),
                all == self.node().children,
                all == nodes(self.children@),
                child_index(all, tag@, rule) == i + child_index(all.skip(i as int), tag@, rule),
            decreases self.children@.len() - i,
        {
            let ghost rest = all.skip(i as int);
            assert(rest[0] == self.children@[i as int].node());
            let c: &Element = &self.children[i];
            if c.is_tag(tag) && fits(rule, c.attr("name")) {
                return i;
            }
            assert(rest.skip(1) =~= all.skip(i + 1));
            i += 1;
        }
        i
    }

    /// The first child with this tag and name.
    pub fn pick(&self, tag: &str, rule: NameRule) -> (r: Option<&Element>)
        ensures
            match r {
                Some(e) => child(self.node(), tag@, rule) == Some(e.node()) && decreases_to!(self => *e),
                None => child(self.node(), tag@, rule) is None,
            },
    {
        let i: usize = self.find_child(tag, rule);
        proof {
            lemma_child_index(self.node().children, tag@, rule);
        }
        if i < self.children.len() {
            Some(&self.children[i])
        } else {
            None
        }
    }

    /// The property of this kind and name.
    pub fn prop(&self, tag: &str, name: &str) -> (r: Option<&Element>)
        ensures
            match r {
                Some(e) => child(self.node(), tag@, NameRule::Is(name)) == Some(e.node()),
                None => child(self.node(), tag@, NameRule::Is(name)) is None,
            },
    {
        self.pick(tag, NameRule::Is(name))
    }

    /// The first child with this tag.
    pub fn child_tag(&self, tag: &str) -> (r: Option<&Element>)
        ensures
            match r {
                Some(e) => child(self.node(), tag@, NameRule::Any) == Some(e.node())
                    && decreases_to!(self => *e),
                None => child(self.node(), tag@, NameRule::Any) is None,
            },
    {
        self.pick(tag, NameRule::Any)
    }

    fn value(&self, tag: &str, name: &str) -> (r: Option<&str>)
        ensures
            str_text(r) == prop_value(self.node(), tag@, name),
    {
        match self.prop(tag, name) {
            Some(e) => e.attr("value"),
            None => None,
        }
    }

    /// A floating-point property, as text.
    pub fn float(&self, name: &str) -> (r: Option<String>)
        ensures
            opt_text(r) == float_of(self.node(), name),
    {
        match self.value("float", name) {
            Some(v) => parse_number(v),
            None => None,
        }
    }

    /// A whole number property that is not negative.
    pub fn integer(&self, name: &str) -> (r: Option<usize>)
        ensures
            match int_of(self.node(), name) {
                Some(v) => r == Some(v as usize) && 0 <= v <= usize::MAX,
                None => r is None,
            },
    {
        match self.value("integer", name) {
            Some(v) => {
                let c = chars_of(v);
                parse_usize(trim(&c))
            },
            None => None,
        }
    }

    /// A whole number property.
    pub fn int_signed(&self, name: &str) -> (r: Option<i64>)
        ensures
            match int_signed_of(self.node(), name) {
                Some(v) => r == Some(v as i64) && i64::MIN <= v <= i64::MAX,
                None => r is None,
            },
    {
        match self.value("integer", name) {
            Some(v) => {
                let c = chars_of(v);
                parse_i64(trim(&c))
            },
            None => None,
        }
    }

    /// A text property.
    pub fn string(&self, name: &str) -> (r: Option<&str>)
        ensures
            str_text(r) == prop_value(self.node(), "string"@, name),
    {
        self.value("string", name)
    }

    /// A boolean property, or the default; a value that is neither `true` nor `false` is warned
    /// of.
    pub fn boolean_or(&self, name: &str, default: bool, warnings: &mut Vec<String>) -> (r: bool)
        ensures
            r == boolean_of(self.node(), name, default),
            strings(final(warnings)@) == strings(old(warnings)@) + boolean_warnings(
                self.node(),
                name,
                default,
            ),
    {
        let ghost start = strings(warnings@);
        let d: &str = if default {
            "true"
        } else {
            "false"
        };
        match self.prop("boolean", name) {
            None => {
                assert(start + Seq::<Seq<char>>::empty() =~= start);
                default
            },
            Some(e) => match e.attr("value") {
                None => {
                    warn5(warnings, "boolean '", name, "' has no value attribute; using ", d, "");
                    assert(strings(warnings@) =~= start + boolean_warnings(
                        self.node(),
                        name,
                        default,
                    ));
                    default
                },
                Some(v) => {
                    let c = chars_of(v);
                    let t = trim(&c);
                    if is_word(t, "true") {
                        assert(start + Seq::<Seq<char>>::empty() =~= start);
                        true
                    } else if is_word(t, "false") {
                        assert(start + Seq::<Seq<char>>::empty() =~= start);
                        false
                    } else {
                        let shown = string_of(t);
                        let end = joined("' (expected true or false); using ", d);
                        warn5(
                            warnings,
                            "boolean '",
                            name,
                            "' has invalid value '",
                            shown.as_str(),
                            end.as_str(),
                        );
                        assert(strings(warnings@) =~= start + boolean_warnings(
                            self.node(),
                            name,
                            default,
                        ));
                        default
                    }
                },
            },
        }
    }

    fn triple(&self, tag: &str, name: &str) -> (r: Option<Triple>)
        ensures
            opt_triple(r) == triple_of(self.node(), tag@, name),
    {
        let e = match self.prop(tag, name) {
            Some(e) => e,
            None => {
                return None;
            },
        };
        match (e.attr("x"), e.attr("y"), e.attr("z")) {
            (Some(x), Some(y), Some(z)) => {
                match (parse_number(x), parse_number(y), parse_number(z)) {
                    (Some(a), Some(b), Some(c)) => Some(Triple { x: a, y: b, z: c }),
                    _ => None,
                }
            },
            _ => match e.attr("value") {
                Some(v) => parse_vec3(v),
                None => None,
            },
        }
    }

    /// A point property.
    pub fn point(&self, name: &str) -> (r: Option<Triple>)
        ensures
            opt_triple(r) == triple_of(self.node(), "point"@, name),
    {
        self.triple("point", name)
    }

    /// A vector property.
    pub fn vector(&self, name: &str) -> (r: Option<Triple>)
        ensures
            opt_triple(r) == triple_of(self.node(), "vector"@, name),
    {
        self.triple("vector", name)
    }

    /// A colour property.
    pub fn color(&self, name: &str) -> (r: Option<ColorText>)
        ensures
            opt_color(r) == color_of(self.node(), name),
    {
        let linear = self.prop("rgb", name);
        let srgb: bool = linear.is_none();
        let found = if srgb {
            self.prop("srgb", name)
        } else {
            linear
        };
        match found {
            None => None,
            Some(e) => match e.attr("value") {
                None => None,
                Some(v) => match parse_vec3(v) {
                    None => None,
                    Some(t) => Some(ColorText { srgb, v: t }),
                },
            },
        }
    }

    /// A colour property, or a floating-point one for a grey.
    pub fn color_or_float(&self, name: &str) -> (r: Option<ColorText>)
        ensures
            opt_color(r) == color_or_float_of(self.node(), name),
    {
        match self.color(name) {
            Some(c) => Some(c),
            None => match self.float(name) {
                Some(v) => Some(grey_text(v.as_str())),
                None => None,
            },
        }
    }
}

/// Two texts, one after the other.
pub fn joined(a: &str, b: &str) -> (r: String)
    ensures
        r@ == a@ + b@,
{
    let mut t = chars_of(a);
    let mut x = chars_of(b);
    t.append(&mut x);
    assert(t@ =~= a@ + b@);
    string_of(&t)
}

} // verus!
