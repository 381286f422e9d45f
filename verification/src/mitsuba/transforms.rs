//! Transformations.

use super::gauge::measures;
use super::lights::Text3;
use super::props::{
    attr, number_of, parse_number, parse_some_numbers, pieces, some_numbers, warn1, warn3,
};
use super::xml::{lemma_node_children, nodes, Element, Node};
use crate::decimal::{decimal_text, to_decimal};
use crate::obj::{strings, Triple};
use crate::reals::{below, less, SHORT};
use crate::text::{copied, string_of};
use vstd::prelude::*;

verus! {

/// One step of a transformation.
pub enum TransformOp {
    Translate(Triple),
    Scale(Triple),
    /// By an angle in degrees.
    Rotate { axis: Triple, angle: String },
    /// Sixteen numbers, row by row.
    Matrix(Vec<String>),
}

pub enum OpModel {
    Translate((Seq<char>, Seq<char>, Seq<char>)),
    Scale((Seq<char>, Seq<char>, Seq<char>)),
    Rotate { axis: (Seq<char>, Seq<char>, Seq<char>), angle: Seq<char> },
    Matrix(Seq<Seq<char>>),
}

impl View for TransformOp {
    type V = OpModel;

    open spec fn view(&self) -> OpModel {
        match self {
            TransformOp::Translate(t) => OpModel::Translate(t@),
            TransformOp::Scale(t) => OpModel::Scale(t@),
            TransformOp::Rotate { axis, angle } => OpModel::Rotate { axis: axis@, angle: angle@ },
            TransformOp::Matrix(v) => OpModel::Matrix(strings(v@)),
        }
    }
}

pub open spec fn op_models(v: Seq<TransformOp>) -> Seq<OpModel> {
    v.map_values(|o: TransformOp| o@)
}

/// The number in an attribute, or another in its place.
pub open spec fn number_or(n: Node, key: Seq<char>, default: Seq<char>) -> Seq<char> {
    match attr(n, key) {
        None => default,
        Some(s) => match number_of(s) {
            None => default,
            Some(v) => v,
        },
    }
}

/// The attributes `x`, `y` and `z`.
pub open spec fn xyz_of(n: Node, default: Seq<char>) -> (Seq<char>, Seq<char>, Seq<char>) {
    (number_or(n, "x"@, default), number_or(n, "y"@, default), number_or(n, "z"@, default))
}

/// The number that stands for a uniform scale.
pub open spec fn scale_value(n: Node) -> Option<Seq<char>> {
    match attr(n, "value"@) {
        None => None,
        Some(s) => number_of(s),
    }
}

/// The step that an element stands for. A rotation about an axis that is hardly longer than nothing
/// is none.
pub open spec fn op_of(n: Node, len: spec_fn(Text3) -> u64) -> Option<OpModel> {
    if n.tag == "translate"@ {
        Some(OpModel::Translate(xyz_of(n, "0"@)))
    } else if n.tag == "scale"@ {
        Some(
            OpModel::Scale(
                match scale_value(n) {
                    Some(v) => (v, v, v),
                    None => xyz_of(n, "1"@),
                },
            ),
        )
    } else if n.tag == "rotate"@ {
        if below(len(xyz_of(n, "0"@)), SHORT) {
            None
        } else {
            Some(OpModel::Rotate { axis: xyz_of(n, "0"@), angle: number_or(n, "angle"@, "0"@) })
        }
    } else if n.tag == "matrix"@ {
        match attr(n, "value"@) {
            None => None,
            Some(v) => if some_numbers(pieces(v)).len() == 16 {
                Some(OpModel::Matrix(some_numbers(pieces(v))))
            } else {
                None
            },
        }
    } else {
        None
    }
}

/// What reading a step warns of.
pub open spec fn op_warnings(n: Node, len: spec_fn(Text3) -> u64) -> Seq<Seq<char>> {
    if n.tag == "translate"@ || n.tag == "scale"@ || n.tag == "lookat"@ {
        Seq::empty()
    } else if n.tag == "rotate"@ {
        if below(len(xyz_of(n, "0"@)), SHORT) {
            seq!["rotate with zero axis; ignored"@]
        } else {
            Seq::empty()
        }
    } else if n.tag == "matrix"@ {
        match attr(n, "value"@) {
            None => Seq::empty(),
            Some(v) => if some_numbers(pieces(v)).len() == 16 {
                Seq::empty()
            } else {
                seq![
                    "matrix expects 16 values, got "@ + decimal_text(some_numbers(pieces(v)).len())
                        + "; ignored"@,
                ]
            },
        }
    } else {
        seq!["unsupported transform op <"@ + n.tag + ">, ignored"@]
    }
}

fn number_else(el: &Element, key: &str, default: &str) -> (r: String)
    ensures
        r@ == number_or(el.node(), key@, default@),
{
    match el.attr(key) {
        None => copied(default),
        Some(s) => match parse_number(s) {
            None => copied(default),
            Some(v) => v,
        },
    }
}

/// The attributes `x`, `y` and `z`, or what stands in for them.
pub fn xyz(el: &Element, default: &str) -> (r: Triple)
    ensures
        r@ == xyz_of(el.node(), default@),
{
    Triple {
        x: number_else(el, "x", default),
        y: number_else(el, "y", default),
        z: number_else(el, "z", default),
    }
}

/// Reads one step of a transformation; `length` gives the length of an axis.
pub fn parse_transform_op<L: Fn(&Triple) -> u64>(
    el: &Element,
    length: &L,
    warnings: &mut Vec<String>,
) -> (r: Option<TransformOp>)
    requires
        forall|t: &Triple| #[trigger] length.requires((t,)),
    ensures
        forall|len: spec_fn(Text3) -> u64| #[trigger]
            measures(*length, len) ==> strings(final(warnings)@) == strings(old(warnings)@)
                + op_warnings(el.node(), len) && match r {
                Some(o) => op_of(el.node(), len) == Some(o@),
                None => op_of(el.node(), len) is None,
            },
{
    let ghost start = strings(warnings@);
    proof {
        reveal_strlit("translate");
        reveal_strlit("scale");
        reveal_strlit("rotate");
        reveal_strlit("matrix");
        reveal_strlit("lookat");
        assert("scale"@[0] == 's' && "translate"@[0] == 't' && "rotate"@[0] == 'r' && "matrix"@[0]
            == 'm' && "lookat"@[0] == 'l');
    }
    let ghost none = Seq::<Seq<char>>::empty();
    assert(start + none =~= start);
    if el.is_tag("translate") {
        return Some(TransformOp::Translate(xyz(el, "0")));
    }
    if el.is_tag("scale") {
        let uniform = match el.attr("value") {
            Some(s) => parse_number(s),
            None => None,
        };
        return match uniform {
            Some(v) => Some(
                TransformOp::Scale(
                    Triple { x: copied(v.as_str()), y: copied(v.as_str()), z: v },
                ),
            ),
            None => Some(TransformOp::Scale(xyz(el, "1"))),
        };
    }
    if el.is_tag("rotate") {
        let axis = xyz(el, "0");
        if less(length(&axis), SHORT) {
            warn1(warnings, "rotate with zero axis; ignored");
            assert(strings(warnings@) =~= start + seq!["rotate with zero axis; ignored"@]);
            return None;
        }
        return Some(TransformOp::Rotate { axis, angle: number_else(el, "angle", "0") });
    }
    if el.is_tag("matrix") {
        let v = match el.attr("value") {
            None => {
                return None;
            },
            Some(v) => parse_some_numbers(v),
        };
        assert(strings(v@).len() == v@.len());
        if v.len() == 16 {
            return Some(TransformOp::Matrix(v));
        }
        let d = to_decimal(v.len() as u64);
        let t = string_of(&d);
        warn3(warnings, "matrix expects 16 values, got ", t.as_str(), "; ignored");
        assert(strings(warnings@) =~= start + seq![
            "matrix expects 16 values, got "@ + t@ + "; ignored"@,
        ]);
        return None;
    }
    if !el.is_tag("lookat") {
        warn3(warnings, "unsupported transform op <", el.tag.as_str(), ">, ignored");
        assert(strings(warnings@) =~= start + seq![
            "unsupported transform op <"@ + el.tag@ + ">, ignored"@,
        ]);
    }
    None
}

/// The steps that these elements stand for, in the order of the document.
pub open spec fn ops_of(c: Seq<Node>, len: spec_fn(Text3) -> u64) -> Seq<OpModel>
    decreases c.len(),
{
    if c.len() == 0 {
        Seq::empty()
    } else {
        match op_of(c.last(), len) {
            Some(o) => ops_of(c.drop_last(), len).push(o),
            None => ops_of(c.drop_last(), len),
        }
    }
}

pub open spec fn ops_warnings(c: Seq<Node>, len: spec_fn(Text3) -> u64) -> Seq<Seq<char>>
    decreases c.len(),
{
    if c.len() == 0 {
        Seq::empty()
    } else {
        ops_warnings(c.drop_last(), len) + op_warnings(c.last(), len)
    }
}

/// Reads a transformation: its steps, the last of which is applied first.
pub fn parse_transform<L: Fn(&Triple) -> u64>(
    el: &Element,
    length: &L,
    warnings: &mut Vec<String>,
) -> (r: Vec<TransformOp>)
    requires
        forall|t: &Triple| #[trigger] length.requires((t,)),
    ensures
        forall|len: spec_fn(Text3) -> u64| #[trigger]
            measures(*length, len) ==> op_models(r@) == ops_of(el.node().children, len) && strings(
                final(warnings)@,
            ) == strings(old(warnings)@) + ops_warnings(el.node().children, len),
{
    let ghost start = strings(warnings@);
    let ghost all = el.node().children;
    proof {
        lemma_node_children(el);
        assert(all.take(0) =~= Seq::<Node>::empty());
    }
    let mut v: Vec<TransformOp> = Vec::new();
    assert(op_models(v@) =~= Seq::<OpModel>::empty());
    assert(strings(warnings@) =~= start + Seq::<Seq<char>>::empty());
    let mut i: usize = 0;
    while i < el.children.len()
        invariant
            i <= el.children@.len(),
            all == nodes(el.children@),
            forall|t: &Triple| #[trigger] length.requires((t,)),
            forall|len: spec_fn(Text3) -> u64| #[trigger]
                measures(*length, len) ==> op_models(v@) == ops_of(all.take(i as int), len)
                    && strings(warnings@) == start + ops_warnings(all.take(i as int), len),
        decreases el.children@.len() - i,
    {
        proof {
            assert(all.take(i + 1).drop_last() =~= all.take(i as int));
            assert(all.take(i + 1).last() == el.children@[i as int].node());
        }
        let ghost before = v@;
        if let Some(o) = parse_transform_op(&el.children[i], length, warnings) {
            v.push(o);
            assert(op_models(v@) =~= op_models(before).push(o@));
        }
        i += 1;
        proof {
            assert forall|len: spec_fn(Text3) -> u64| #[trigger]
                measures(*length, len) implies op_models(v@) == ops_of(all.take(i as int), len)
                && strings(warnings@) == start + ops_warnings(all.take(i as int), len) by {
                assert(strings(warnings@) =~= start + ops_warnings(all.take(i as int), len));
            }
        }
    }
    assert(all.take(i as int) =~= all);
    v
}

} // verus!
