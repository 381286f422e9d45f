//! Warnings: what a scene does wrong is told once, and nothing is told of what is right.

use super::scene_elements::{
    carries, colours_are_read, coordinates_are_read, first, gives, lacks, named, none_of,
    numbers_are_read, paints, places, properties_are_read, says, silent, tagged,
    the_first_child_counts, the_last_attribute_counts, types_are_attributes,
};
use super::scene_lights::{bright, fractions};
use crate::decimal::decimal_text;
use crate::mitsuba::dressing::{
    all_library_warnings, duplicate_warnings, library_warnings, LibraryFile,
};
use crate::mitsuba::gauge::Readings;
use crate::mitsuba::library::{unsupported_in, MtlNumbers};
use crate::mitsuba::lights::{
    bounds_warnings, end_pose_warnings, environment_warnings, light_warnings, phase_warnings,
    shutter_warnings, substance_warnings, MediumBits, Text3,
};
use crate::mitsuba::materials::{
    bitmap_of, bitmap_warnings, emitter_warnings, environment_error, image_error, texture_of,
    ImageModel, RegistryModel,
};
use crate::mitsuba::props::{boolean_warnings, NameRule};
use crate::mitsuba::scene::{all_settings_warnings, path_in, settings_warnings};
use crate::mitsuba::shapes::misplaced_warnings;
use crate::mitsuba::transforms::{op_warnings, ops_warnings};
use crate::mitsuba::xml::Node;
use crate::mtl::MtlModel;
use crate::reals::{at_most, below, is_finite};
use crate::text::trimmed;
use vstd::prelude::*;

verus! {

/// A choice that is neither `true` nor `false`, or has no value, is warned of once.
pub proof fn unclear_choices_are_told(n: Node, name: &str, t: Seq<char>, c: Node, default: bool)
    ensures
        silent(n, "boolean"@, name@) ==> boolean_warnings(n, name, default).len() == 0,
        says(n, "boolean"@, name@, t) && (trimmed(t) == "true"@ || trimmed(t) == "false"@)
            ==> boolean_warnings(n, name, default).len() == 0,
        says(n, "boolean"@, name@, t) && trimmed(t) != "true"@ && trimmed(t) != "false"@
            ==> boolean_warnings(n, name, default).len() == 1,
        first(n.children, named("boolean"@, name@), c) && lacks(c, "value"@) ==> boolean_warnings(
            n,
            name,
            default,
        ).len() == 1,
{
    the_first_child_counts(n, "boolean"@, NameRule::Is(name), c);
    the_last_attribute_counts(c, "value"@, t);
    if says(n, "boolean"@, name@, t) {
        let d = choose|d: Node| #[trigger]
            first(n.children, named("boolean"@, name@), d) && carries(d, "value"@, t);
        the_first_child_counts(n, "boolean"@, NameRule::Is(name), d);
        the_last_attribute_counts(d, "value"@, t);
    }
}

/// A texture of an unknown kind, without a file or with an unknown way to go on is warned of once.
pub proof fn unclear_textures_are_told(n: Node, k: Seq<char>, f: Seq<char>, w: Seq<char>)
    requires
        carries(n, "type"@, k),
    ensures
        k != "bitmap"@ ==> bitmap_warnings(n).len() == 1,
        k == "bitmap"@ && silent(n, "string"@, "filename"@) ==> bitmap_warnings(n).len() == 1,
        k == "bitmap"@ && says(n, "string"@, "filename"@, f) && silent(n, "string"@, "wrap_mode"@)
            ==> bitmap_warnings(n).len() == 0,
        k == "bitmap"@ && says(n, "string"@, "filename"@, f) && says(
            n,
            "string"@,
            "wrap_mode"@,
            w,
        ) ==> (bitmap_warnings(n).len() == 0 <==> w == "repeat"@ || w == "clamp"@),
{
    types_are_attributes(n, k);
    properties_are_read(n, "string"@, "filename", f);
    properties_are_read(n, "string"@, "wrap_mode", w);
}

/// A picture that cannot be read is warned of, once more than one that can.
pub proof fn unreadable_pictures_are_told(
    n: Node,
    base: Seq<char>,
    images: Seq<ImageModel>,
    good: Seq<ImageModel>,
    reg: RegistryModel,
)
    requires
        bitmap_of(n, base) is Some,
        image_error(images, bitmap_of(n, base)->Some_0.0) is Some,
        image_error(good, bitmap_of(n, base)->Some_0.0) is None,
    ensures
        texture_of(n, base, images, reg).warnings.len() == texture_of(n, base, good, reg).warnings.len()
            + 1,
{
}

/// A light on a surface of another kind than `area` is warned of once.
pub proof fn other_lights_are_told(n: Node, k: Seq<char>)
    requires
        carries(n, "type"@, k),
    ensures
        emitter_warnings(n).len() == 0 <==> k == "area"@,
        emitter_warnings(n).len() <= 1,
{
    types_are_attributes(n, k);
}

/// Times of the shutter that are not finite, out of order or out of range are each warned of once.
pub proof fn unusable_times_are_told(a: u64, b: u64, m: Readings)
    ensures
        at_most(0, a) && at_most(a, b) && at_most(b, 0x3FF0_0000_0000_0000) ==> shutter_warnings(
            a,
            b,
            m,
        ).len() == 0,
        at_most(0, b) && below(b, a) && at_most(a, 0x3FF0_0000_0000_0000) ==> shutter_warnings(
            a,
            b,
            m,
        ).len() == 1,
        !is_finite(a) || !is_finite(b) ==> shutter_warnings(a, b, m).len() == 1,
        is_finite(a) && is_finite(b) && at_most(a, b) && (below(a, 0) || below(
            0x3FF0_0000_0000_0000,
            b,
        )) ==> shutter_warnings(a, b, m).len() == 1,
        is_finite(a) && is_finite(b) && below(b, a) && (below(b, 0) || below(
            0x3FF0_0000_0000_0000,
            a,
        )) ==> shutter_warnings(a, b, m).len() == 2,
{
}

/// A medium that takes or scatters more or less than it can is warned of once for each.
pub proof fn unusable_media_are_told(b: MediumBits)
    ensures
        bright(b.sigma_t) && fractions(b.albedo) ==> substance_warnings(b).len() == 0,
        below(b.sigma_t.0, 0) || below(b.sigma_t.1, 0) || below(b.sigma_t.2, 0)
            ==> substance_warnings(b).len() >= 1,
        !fractions(b.albedo) ==> substance_warnings(b).len() >= 1,
        (below(b.sigma_t.0, 0) || below(b.sigma_t.1, 0) || below(b.sigma_t.2, 0)) && !fractions(
            b.albedo,
        ) ==> substance_warnings(b).len() == 2,
        substance_warnings(b).len() <= 2,
{
}

/// A medium with one corner only, or with its corners exchanged, is warned of once.
pub proof fn unusable_bounds_are_told(n: Node, m: Readings, a: Text3, b: Text3)
    ensures
        ({
            let lo = ((m.number)(a.0), (m.number)(a.1), (m.number)(a.2));
            let hi = ((m.number)(b.0), (m.number)(b.1), (m.number)(b.2));
            let turned = below(hi.0, lo.0) || below(hi.1, lo.1) || below(hi.2, lo.2);
            let (one, other) = (
                places(n, "point"@, "bounds_min"@, a),
                places(n, "point"@, "bounds_max"@, b),
            );
            &&& one && other && !turned ==> bounds_warnings(n, m).len() == 0
            &&& one && other && turned ==> bounds_warnings(n, m).len() == 1
            &&& one && silent(n, "point"@, "bounds_max"@) ==> bounds_warnings(n, m).len() == 1
            &&& other && silent(n, "point"@, "bounds_min"@) ==> bounds_warnings(n, m).len() == 1
            &&& silent(n, "point"@, "bounds_min"@) && silent(n, "point"@, "bounds_max"@)
                ==> bounds_warnings(n, m).len() == 0
        }),
{
    coordinates_are_read(n, "point"@, "bounds_min", a);
    coordinates_are_read(n, "point"@, "bounds_max", b);
}

/// A light with a negative part is warned of once, and so is one without a direction; angles that
/// fit are not warned of.
pub proof fn unusable_lights_are_told(
    n: Node,
    m: Readings,
    d: Text3,
    srgb: bool,
    v: Text3,
)
    ensures
        ({
            let c = (m.color)(crate::mitsuba::props::ColorModel { srgb, v });
            let dark = below(c.0, 0) || below(c.1, 0) || below(c.2, 0);
            let length = (m.length)(d);
            let aims = below(0, length) && is_finite(length);
            &&& carries(n, "type"@, "point"@) && paints(n, "intensity"@, srgb, v) ==> (light_warnings(
                n,
                m,
            ).len() == if dark {
                1nat
            } else {
                0
            })
            &&& carries(n, "type"@, "directional"@) && paints(n, "irradiance"@, srgb, v) && places(
                n,
                "vector"@,
                "direction"@,
                d,
            ) ==> light_warnings(n, m).len() == (if dark {
                1nat
            } else {
                0
            }) + (if aims {
                0nat
            } else {
                1
            })
        }),
{
    reveal_strlit("point");
    reveal_strlit("directional");
    reveal_strlit("spot");
    assert("point"@.len() == 5 && "directional"@.len() == 11 && "spot"@.len() == 4);
    types_are_attributes(n, "point"@);
    types_are_attributes(n, "directional"@);
    colours_are_read(n, "intensity", srgb, v, "1"@);
    colours_are_read(n, "irradiance", srgb, v, "1"@);
    coordinates_are_read(n, "vector"@, "direction", d);
}

/// Transformations are warned of one after the other, each at most once: unknown ones, turns about
/// nothing, and matrices that do not have sixteen numbers.
pub proof fn unclear_transformations_are_told(
    c: Seq<Node>,
    n: Node,
    len: spec_fn(Text3) -> u64,
)
    ensures
        ops_warnings(c.push(n), len) == ops_warnings(c, len) + op_warnings(n, len),
        op_warnings(n, len).len() <= 1,
        n.tag == "translate"@ || n.tag == "scale"@ || n.tag == "lookat"@ ==> op_warnings(n, len).len()
            == 0,
        n.tag != "translate"@ && n.tag != "scale"@ && n.tag != "lookat"@ && n.tag != "rotate"@
            && n.tag != "matrix"@ ==> op_warnings(n, len).len() == 1,
        n.tag == "matrix"@ || n.tag == "rotate"@ ==> (op_warnings(n, len).len() == 1
            ==> crate::mitsuba::transforms::op_of(n, len) is None),
{
    assert(c.push(n).drop_last() =~= c);
    reveal_strlit("translate");
    reveal_strlit("scale");
    reveal_strlit("rotate");
    reveal_strlit("matrix");
    reveal_strlit("lookat");
    assert("translate"@.len() == 9 && "scale"@.len() == 5 && "rotate"@.len() == 6 && "matrix"@.len()
        == 6 && "lookat"@.len() == 6);
    assert("rotate"@[0] == 'r' && "matrix"@[0] == 'm' && "lookat"@[0] == 'l');
}

/// Settings are warned of one after the other.
pub proof fn settings_are_told_in_order(c: Seq<Node>, n: Node)
    ensures
        all_settings_warnings(c.push(n)) == all_settings_warnings(c) + settings_warnings(n),
        n.tag != "integrator"@ ==> settings_warnings(n).len() == 0,
        n.tag == "integrator"@ && silent(n, "integer"@, "max_depth"@) && silent(
            n,
            "integer"@,
            "rr_depth"@,
        ) ==> settings_warnings(n).len() == 0,
{
    assert(c.push(n).drop_last() =~= c);
    if silent(n, "integer"@, "max_depth"@) {
        super::scene_elements::whole_numbers_may_be_missing(n, "max_depth");
    }
    if silent(n, "integer"@, "rr_depth"@) {
        super::scene_elements::whole_numbers_may_be_missing(n, "rr_depth");
    }
}

/// A length or a start of chance that cannot be is warned of once.
pub proof fn impossible_settings_are_told(n: Node, d: nat)
    requires
        n.tag == "integrator"@,
        d <= i64::MAX,
    ensures
        says(n, "integer"@, "max_depth"@, decimal_text(d)) && silent(n, "integer"@, "rr_depth"@)
            ==> settings_warnings(n).len() == 0,
        d > 1 && says(n, "integer"@, "max_depth"@, seq!['-'] + decimal_text(d)) && silent(
            n,
            "integer"@,
            "rr_depth"@,
        ) ==> settings_warnings(n).len() == 1,
        says(n, "integer"@, "rr_depth"@, decimal_text(d)) && silent(n, "integer"@, "max_depth"@)
            ==> settings_warnings(n).len() == (if d == 0 {
            1nat
        } else {
            0
        }),
{
    super::text_rules::decimals_are_read(d, i64::MIN as int, i64::MAX as int);
    super::text_rules::tight_text_is_left_alone(decimal_text(d));
    super::text_rules::tight_text_is_left_alone(seq!['-'] + decimal_text(d));
    let t = decimal_text(d);
    if says(n, "integer"@, "max_depth"@, t) {
        super::scene_elements::whole_numbers_are_read(n, "max_depth", t, d as int);
    }
    if says(n, "integer"@, "max_depth"@, seq!['-'] + t) {
        super::scene_elements::whole_numbers_are_read(n, "max_depth", seq!['-'] + t, -(d as int));
    }
    if says(n, "integer"@, "rr_depth"@, t) {
        super::scene_elements::whole_numbers_are_read(n, "rr_depth", t, d as int);
    }
    if silent(n, "integer"@, "max_depth"@) {
        super::scene_elements::whole_numbers_may_be_missing(n, "max_depth");
    }
    if silent(n, "integer"@, "rr_depth"@) {
        super::scene_elements::whole_numbers_may_be_missing(n, "rr_depth");
    }
}

/// A library that cannot be read is warned of once, one that can once for each name that it has
/// twice.
pub proof fn unclear_libraries_are_told(
    l: Seq<LibraryFile>,
    x: LibraryFile,
    path: Seq<char>,
    names: Seq<Seq<char>>,
    name: Seq<char>,
)
    ensures
        all_library_warnings(l.push(x)) == all_library_warnings(l) + library_warnings(x),
        x.error is Some ==> library_warnings(x).len() == 1,
        x.error is None ==> library_warnings(x) == duplicate_warnings(x.path, x.dup_names),
        duplicate_warnings(path, names.push(name)).len() == duplicate_warnings(path, names).len() + 1,
        duplicate_warnings(path, Seq::empty()).len() == 0,
{
    assert(l.push(x).drop_last() =~= l);
    assert(names.push(name).drop_last() =~= names);
}

/// A material that glows or has an ambient picture is warned of once.
pub proof fn unsupported_materials_are_told(m: MtlModel, k: MtlNumbers)
    ensures
        unsupported_in(m, k).len() <= 1,
        m.map_ka is Some ==> unsupported_in(m, k).len() == 1,
        m.map_ka is None && k.ke == (0u64, 0u64, 0u64) ==> unsupported_in(m, k).len() == 0,
        below(0, k.ke.0) || below(0, k.ke.1) || below(0, k.ke.2) ==> unsupported_in(m, k).len() == 1,
{
}

/// A medium inside a shape is warned of, and one elsewhere is not.
pub proof fn media_inside_shapes_are_told(n: Node, c: Node)
    ensures
        first(n.children, tagged("medium"@), c) ==> misplaced_warnings(n).len() >= 1,
        n.children.len() == 0 ==> misplaced_warnings(n).len() == 0,
{
    the_first_child_counts(n, "medium"@, NameRule::Any, c);
}

/// A camera that is to move without being told where to look is warned of once.
pub proof fn unclear_motions_are_told(n: Node, e: Node)
    ensures
        silent(n, "transform"@, "to_world_end"@) ==> end_pose_warnings(n).len() == 0,
        first(n.children, named("transform"@, "to_world_end"@), e) && none_of(
            e.children,
            tagged("lookat"@),
        ) ==> end_pose_warnings(n).len() == 1,
{
    the_first_child_counts(n, "transform"@, NameRule::Is("to_world_end"), e);
    the_first_child_counts(e, "lookat"@, NameRule::Any, e);
}

/// Surroundings that are turned, cannot be read or are of an unknown kind are warned of.
pub proof fn unusable_surroundings_are_told(
    n: Node,
    k: Seq<char>,
    f: Seq<char>,
    base: Seq<char>,
    images: Seq<ImageModel>,
)
    requires
        carries(n, "type"@, k),
        none_of(n.children, tagged("transform"@)),
    ensures
        k == "constant"@ ==> environment_warnings(n, base, images).len() == 0,
        k == "envmap"@ && says(n, "string"@, "filename"@, f) ==> (environment_warnings(
            n,
            base,
            images,
        ).len() == 0 <==> environment_error(images, path_in(base, f)) is None),
        k != "constant"@ && k != "envmap"@ ==> environment_warnings(n, base, images).len() == 1,
{
    reveal_strlit("envmap");
    reveal_strlit("constant");
    assert("envmap"@.len() == 6 && "constant"@.len() == 8);
    types_are_attributes(n, k);
    properties_are_read(n, "string"@, "filename", f);
    the_first_child_counts(n, "transform"@, NameRule::Any, n);
}

/// A phase function of an unknown kind is warned of once, and one that scatters too much to one side.
pub proof fn unclear_phases_are_told(n: Node, m: Readings, p: Node, k: Seq<char>, g: Seq<char>)
    ensures
        none_of(n.children, tagged("phase"@)) ==> phase_warnings(n, m).len() == 0,
        first(n.children, tagged("phase"@), p) && carries(p, "type"@, k) && k != "hg"@ && k
            != "isotropic"@ ==> phase_warnings(n, m).len() == 1,
        first(n.children, tagged("phase"@), p) && carries(p, "type"@, k) && k == "isotropic"@
            ==> phase_warnings(n, m).len() == 0,
        first(n.children, tagged("phase"@), p) && carries(p, "type"@, k) && k == "hg"@ && gives(
            p,
            "g"@,
            g,
        ) ==> (phase_warnings(n, m).len() == 0 <==> below(0xBFF0_0000_0000_0000, (m.number)(g))
            && below((m.number)(g), 0x3FF0_0000_0000_0000)),
{
    reveal_strlit("hg");
    reveal_strlit("isotropic");
    assert("hg"@.len() == 2 && "isotropic"@.len() == 9);
    the_first_child_counts(n, "phase"@, NameRule::Any, p);
    types_are_attributes(p, k);
    numbers_are_read(p, "g", g);
}

} // verus!
