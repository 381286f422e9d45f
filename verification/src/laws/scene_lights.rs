//! Cameras, lights, surroundings and media: what each element of a scene is read as.

use super::scene_elements::{
    carries, colourless, colours_are_read, coordinates_are_read, first, gives, named, none_of,
    numbers_are_read, paints, places, properties_are_read, says, silent, tagged,
    the_first_child_counts, the_last_attribute_counts, types_are_attributes, unnamed_or,
};
use super::scene_materials::even;
use crate::mitsuba::gauge::Readings;
use crate::mitsuba::lights::{
    environment_of, light_of, lookat_of, medium_of, sensor_of, usable_beam, usable_cutoff,
    usable_medium, usable_times, EnvironmentModel, MediumBits, PoseModel, Text3,
};
use crate::mitsuba::materials::{environment_error, ImageModel};
use crate::mitsuba::props::{vec3_of, ColorModel, NameRule};
use crate::mitsuba::scene::path_in;
use crate::mitsuba::xml::Node;
use crate::reals::{at_most, below, is_finite, is_nan, Bits3};
use vstd::prelude::*;

verus! {

/// A camera sees as wide as is written, in the direction that is written, through the aperture and
/// with the focus that are written, each from the property of its own name; without them it sees 40
/// degrees across, through a pinhole, with nothing out of focus.
pub proof fn cameras_see_as_written(n: Node, m: Readings, v: Seq<char>)
    ensures
        gives(n, "fov"@, v) ==> sensor_of(n, m).fov == v,
        silent(n, "float"@, "fov"@) ==> sensor_of(n, m).fov == "40"@,
        says(n, "string"@, "fov_axis"@, "y"@) ==> sensor_of(n, m).fov_is_vertical,
        silent(n, "string"@, "fov_axis"@) ==> !sensor_of(n, m).fov_is_vertical,
        says(n, "string"@, "fov_axis"@, v) && v != "y"@ ==> !sensor_of(n, m).fov_is_vertical,
        gives(n, "aperture_radius"@, v) ==> sensor_of(n, m).aperture_radius == v,
        silent(n, "float"@, "aperture_radius"@) ==> sensor_of(n, m).aperture_radius == "0"@,
        gives(n, "focus_distance"@, v) ==> sensor_of(n, m).focus_distance == Some(v),
        silent(n, "float"@, "focus_distance"@) ==> sensor_of(n, m).focus_distance is None,
{
    numbers_are_read(n, "fov", v);
    numbers_are_read(n, "aperture_radius", v);
    numbers_are_read(n, "focus_distance", v);
    properties_are_read(n, "string"@, "fov_axis", v);
    properties_are_read(n, "string"@, "fov_axis", "y"@);
}

/// The shutter opens and closes at the times that are written, if they are in order and lie between
/// zero and one; without them it is open all the time.
pub proof fn shutters_open_as_written(n: Node, m: Readings, a: Seq<char>, b: Seq<char>)
    requires
        gives(n, "shutter_open"@, a) || (silent(n, "float"@, "shutter_open"@) && a == "0"@),
        gives(n, "shutter_close"@, b) || (silent(n, "float"@, "shutter_close"@) && b == "1"@),
        at_most(0, (m.number)(a)),
        at_most((m.number)(a), (m.number)(b)),
        at_most((m.number)(b), 0x3FF0_0000_0000_0000),
    ensures
        sensor_of(n, m).shutter_open == (m.number)(a),
        sensor_of(n, m).shutter_close == (m.number)(b),
{
    numbers_are_read(n, "shutter_open", a);
    numbers_are_read(n, "shutter_close", b);
}

/// Whatever times are written, the shutter closes no earlier than it opens, both between zero and
/// one; times in the wrong order are exchanged.
pub proof fn shutters_are_open_for_some_time(a: u64, b: u64)
    ensures
        at_most(0, usable_times(a, b).0),
        at_most(usable_times(a, b).0, usable_times(a, b).1),
        at_most(usable_times(a, b).1, 0x3FF0_0000_0000_0000),
        !is_finite(a) || !is_finite(b) ==> usable_times(a, b) == (0u64, 0x3FF0_0000_0000_0000u64),
        at_most(0, a) && at_most(a, b) && at_most(b, 0x3FF0_0000_0000_0000) ==> usable_times(a, b)
            == (a, b),
        at_most(0, b) && below(b, a) && at_most(a, 0x3FF0_0000_0000_0000) ==> usable_times(a, b)
            == (b, a),
{
}

/// A camera looks from its origin to its target, with the written direction upwards; these are
/// three attributes, in three places.
pub proof fn cameras_look_as_written(
    l: Node,
    o: Seq<char>,
    t: Seq<char>,
    u: Seq<char>,
    a: Text3,
    b: Text3,
    c: Text3,
)
    requires
        carries(l, "origin"@, o),
        carries(l, "target"@, t),
        vec3_of(o) == Some(a),
        vec3_of(t) == Some(b),
    ensures
        carries(l, "up"@, u) && vec3_of(u) == Some(c) ==> lookat_of(l) == Some(
            PoseModel { origin: a, target: b, up: c },
        ),
        super::scene_elements::lacks(l, "up"@) ==> lookat_of(l) == Some(
            PoseModel { origin: a, target: b, up: ("0"@, "1"@, "0"@) },
        ),
{
    the_last_attribute_counts(l, "origin"@, o);
    the_last_attribute_counts(l, "target"@, t);
    the_last_attribute_counts(l, "up"@, u);
}

/// A camera stands where the first `lookat` of its transformation says, in front of the origin if
/// there is none; it moves to where the transformation named `to_world_end` says.
pub proof fn cameras_stand_as_written(
    n: Node,
    m: Readings,
    t: Node,
    l: Node,
    e: Node,
    k: Node,
)
    ensures
        first(n.children, unnamed_or("transform"@, "to_world"@), t) && first(
            t.children,
            tagged("lookat"@),
            l,
        ) && lookat_of(l) is Some ==> sensor_of(n, m).pose == lookat_of(l)->Some_0,
        none_of(n.children, unnamed_or("transform"@, "to_world"@)) ==> sensor_of(n, m).pose == (
        PoseModel {
            origin: ("0"@, "0"@, "4"@),
            target: ("0"@, "0"@, "0"@),
            up: ("0"@, "1"@, "0"@),
        }),
        first(n.children, named("transform"@, "to_world_end"@), e) && first(
            e.children,
            tagged("lookat"@),
            k,
        ) ==> sensor_of(n, m).end_pose == lookat_of(k),
        silent(n, "transform"@, "to_world_end"@) ==> sensor_of(n, m).end_pose is None,
{
    the_first_child_counts(n, "transform"@, NameRule::MissingOr("to_world"), t);
    the_first_child_counts(t, "lookat"@, NameRule::Any, l);
    the_first_child_counts(n, "transform"@, NameRule::Is("to_world_end"), e);
    the_first_child_counts(e, "lookat"@, NameRule::Any, k);
}

/// The names of the lights are different.
proof fn lemma_lights()
    ensures
        "point"@ != "directional"@ && "point"@ != "spot"@ && "directional"@ != "spot"@,
        "envmap"@ != "constant"@,
{
    reveal_strlit("point");
    reveal_strlit("directional");
    reveal_strlit("spot");
    reveal_strlit("envmap");
    reveal_strlit("constant");
    assert("point"@.len() == 5 && "directional"@.len() == 11 && "spot"@.len() == 4);
    assert("envmap"@.len() == 6 && "constant"@.len() == 8);
}

/// Whether no part of a colour is negative.
pub open spec fn bright(c: Bits3) -> bool {
    at_most(0, c.0) && at_most(0, c.1) && at_most(0, c.2)
}

/// A light at a point is where it says and as bright as it says.
pub proof fn point_lights_shine(n: Node, m: Readings, p: Text3, srgb: bool, v: Text3, g: Seq<char>)
    requires
        carries(n, "type"@, "point"@),
    ensures
        light_of(n, m) is Some && light_of(n, m)->Some_0 is Point,
        places(n, "point"@, "position"@, p) ==> light_of(n, m)->Some_0->Point_position == p,
        silent(n, "point"@, "position"@) ==> light_of(n, m)->Some_0->Point_position == (
            "0"@,
            "0"@,
            "0"@,
        ),
        paints(n, "intensity"@, srgb, v) && bright((m.color)(ColorModel { srgb, v })) ==> light_of(
            n,
            m,
        )->Some_0->Point_intensity == (m.color)(ColorModel { srgb, v }),
        colourless(n, "intensity"@) && gives(n, "intensity"@, g) && bright((m.color)(even(g)))
            ==> light_of(n, m)->Some_0->Point_intensity == (m.color)(even(g)),
        colourless(n, "intensity"@) && silent(n, "float"@, "intensity"@) && bright(
            (m.color)(even("1"@)),
        ) ==> light_of(n, m)->Some_0->Point_intensity == (m.color)(even("1"@)),
{
    lemma_lights();
    types_are_attributes(n, "point"@);
    coordinates_are_read(n, "point"@, "position", p);
    colours_are_read(n, "intensity", srgb, v, g);
}

/// A light from far away shines in the direction and with the irradiance that are written, downwards
/// if no direction is written; without a usable direction it is no light.
pub proof fn distant_lights_shine(n: Node, m: Readings, d: Text3, srgb: bool, v: Text3, g: Seq<char>)
    requires
        carries(n, "type"@, "directional"@),
        places(n, "vector"@, "direction"@, d) || (silent(n, "vector"@, "direction"@) && d == (
            "0"@,
            "-1"@,
            "0"@,
        )),
    ensures
        light_of(n, m) is Some <==> below(0, (m.length)(d)) && is_finite((m.length)(d)),
        light_of(n, m) is Some ==> light_of(n, m)->Some_0 is Directional && light_of(
            n,
            m,
        )->Some_0->Directional_direction == d,
        light_of(n, m) is Some && paints(n, "irradiance"@, srgb, v) && bright(
            (m.color)(ColorModel { srgb, v }),
        ) ==> light_of(n, m)->Some_0->irradiance == (m.color)(ColorModel { srgb, v }),
        light_of(n, m) is Some && colourless(n, "irradiance"@) && gives(n, "irradiance"@, g)
            && bright((m.color)(even(g))) ==> light_of(n, m)->Some_0->irradiance == (m.color)(even(g)),
        light_of(n, m) is Some && colourless(n, "irradiance"@) && silent(
            n,
            "float"@,
            "irradiance"@,
        ) && bright((m.color)(even("1"@))) ==> light_of(n, m)->Some_0->irradiance == (m.color)(
            even("1"@),
        ),
{
    lemma_lights();
    types_are_attributes(n, "directional"@);
    coordinates_are_read(n, "vector"@, "direction", d);
    colours_are_read(n, "irradiance", srgb, v, g);
}

/// A spot light has a place, a direction, a brightness and two angles, each from the property of its
/// own name; it is 20 degrees wide without one, and its beam three quarters of that.
pub proof fn spot_lights_shine(
    n: Node,
    m: Readings,
    p: Text3,
    d: Text3,
    srgb: bool,
    v: Text3,
    c: Seq<char>,
    b: Seq<char>,
)
    requires
        carries(n, "type"@, "spot"@),
        places(n, "vector"@, "direction"@, d) || (silent(n, "vector"@, "direction"@) && d == (
            "0"@,
            "-1"@,
            "0"@,
        )),
        gives(n, "cutoff_angle"@, c) || (silent(n, "float"@, "cutoff_angle"@) && c == "20"@),
    ensures
        light_of(n, m) is Some <==> below(0, (m.length)(d)) && is_finite((m.length)(d)),
        light_of(n, m) is Some ==> ({
            let l = light_of(n, m)->Some_0;
            let cut = usable_cutoff((m.number)(c));
            &&& l is Spot
            &&& l->Spot_direction == d
            &&& places(n, "point"@, "position"@, p) ==> l->Spot_position == p
            &&& silent(n, "point"@, "position"@) ==> l->Spot_position == ("0"@, "0"@, "0"@)
            &&& paints(n, "intensity"@, srgb, v) && bright((m.color)(ColorModel { srgb, v }))
                ==> l->Spot_intensity == (m.color)(ColorModel { srgb, v })
            &&& l->cutoff_angle == cut
            &&& gives(n, "beam_width"@, b) ==> l->beam_width == usable_beam((m.number)(b), cut)
            &&& silent(n, "float"@, "beam_width"@) ==> l->beam_width == usable_beam(
                (m.three_quarters)(cut),
                cut,
            )
        }),
{
    lemma_lights();
    types_are_attributes(n, "spot"@);
    coordinates_are_read(n, "vector"@, "direction", d);
    coordinates_are_read(n, "point"@, "position", p);
    colours_are_read(n, "intensity", srgb, v, b);
    numbers_are_read(n, "cutoff_angle", c);
    numbers_are_read(n, "beam_width", b);
}

/// Angles in their range are used as they are; others are replaced.
pub proof fn angles_are_used_in_range(c: u64, b: u64)
    ensures
        below(0, c) && at_most(c, 0x4056_8000_0000_0000) ==> usable_cutoff(c) == c,
        !(below(0, c) && at_most(c, 0x4056_8000_0000_0000)) ==> usable_cutoff(c)
            == 0x4034_0000_0000_0000,
        below(0, b) && at_most(b, c) ==> usable_beam(b, c) == b,
        !(below(0, b) && at_most(b, c)) ==> usable_beam(b, c) == c,
        below(0, usable_cutoff(c)) && at_most(usable_cutoff(c), 0x4056_8000_0000_0000),
{
}

/// What surrounds a scene is the picture or the colour that is written, scaled as is written.
pub proof fn surroundings_are_as_written(
    n: Node,
    file: Seq<char>,
    s: Seq<char>,
    srgb: bool,
    v: Text3,
    base: Seq<char>,
    images: Seq<ImageModel>,
)
    requires
        gives(n, "scale"@, s) || (silent(n, "float"@, "scale"@) && s == "1"@),
    ensures
        carries(n, "type"@, "envmap"@) && says(n, "string"@, "filename"@, file)
            && environment_error(images, path_in(base, file)) is None ==> environment_of(
            n,
            base,
            images,
        ) == Some(EnvironmentModel::Image { path: path_in(base, file), scale: s }),
        carries(n, "type"@, "envmap"@) && says(n, "string"@, "filename"@, file)
            && environment_error(images, path_in(base, file)) is Some ==> environment_of(
            n,
            base,
            images,
        ) is None,
        carries(n, "type"@, "constant"@) && paints(n, "radiance"@, srgb, v) ==> environment_of(
            n,
            base,
            images,
        ) == Some(EnvironmentModel::Constant { radiance: ColorModel { srgb, v }, scale: s }),
        carries(n, "type"@, "constant"@) && colourless(n, "radiance"@) ==> environment_of(
            n,
            base,
            images,
        ) == Some(EnvironmentModel::Constant { radiance: even("1"@), scale: s }),
{
    lemma_lights();
    types_are_attributes(n, "envmap"@);
    types_are_attributes(n, "constant"@);
    numbers_are_read(n, "scale", s);
    properties_are_read(n, "string"@, "filename", file);
    colours_are_read(n, "radiance", srgb, v, s);
}

/// Whether three numbers lie between zero and one.
pub open spec fn fractions(c: Bits3) -> bool {
    at_most(0, c.0) && at_most(c.0, 0x3FF0_0000_0000_0000) && at_most(0, c.1) && at_most(
        c.1,
        0x3FF0_0000_0000_0000,
    ) && at_most(0, c.2) && at_most(c.2, 0x3FF0_0000_0000_0000)
}

/// A medium has the extinction and the albedo that are written, if they are in range; one without
/// them.
pub proof fn media_are_as_written(n: Node, m: Readings, srgb: bool, v: Text3, g: Seq<char>)
    requires
        carries(n, "type"@, "homogeneous"@),
    ensures
        medium_of(n, m) is Some,
        paints(n, "sigma_t"@, srgb, v) && bright((m.color)(ColorModel { srgb, v })) ==> medium_of(
            n,
            m,
        )->Some_0.sigma_t == (m.color)(ColorModel { srgb, v }),
        colourless(n, "sigma_t"@) && gives(n, "sigma_t"@, g) && bright((m.color)(even(g)))
            ==> medium_of(n, m)->Some_0.sigma_t == (m.color)(even(g)),
        colourless(n, "sigma_t"@) && silent(n, "float"@, "sigma_t"@) && bright(
            (m.color)(even("1"@)),
        ) ==> medium_of(n, m)->Some_0.sigma_t == (m.color)(even("1"@)),
        paints(n, "albedo"@, srgb, v) && fractions((m.color)(ColorModel { srgb, v })) ==> medium_of(
            n,
            m,
        )->Some_0.albedo == (m.color)(ColorModel { srgb, v }),
        colourless(n, "albedo"@) && gives(n, "albedo"@, g) && fractions((m.color)(even(g)))
            ==> medium_of(n, m)->Some_0.albedo == (m.color)(even(g)),
        colourless(n, "albedo"@) && silent(n, "float"@, "albedo"@) && fractions(
            (m.color)(even("1"@)),
        ) ==> medium_of(n, m)->Some_0.albedo == (m.color)(even("1"@)),
{
    types_are_attributes(n, "homogeneous"@);
    colours_are_read(n, "sigma_t", srgb, v, g);
    colours_are_read(n, "albedo", srgb, v, g);
}

/// A medium scatters forwards or backwards as its phase function says, evenly without one.
pub proof fn media_scatter_as_written(n: Node, m: Readings, p: Node, g: Seq<char>)
    requires
        carries(n, "type"@, "homogeneous"@),
    ensures
        first(n.children, tagged("phase"@), p) && carries(p, "type"@, "hg"@) && gives(p, "g"@, g)
            && below(0xBFF0_0000_0000_0000, (m.number)(g)) && below(
            (m.number)(g),
            0x3FF0_0000_0000_0000,
        ) ==> medium_of(n, m)->Some_0.g == (m.number)(g),
        none_of(n.children, tagged("phase"@)) ==> medium_of(n, m)->Some_0.g == 0,
        first(n.children, tagged("phase"@), p) && carries(p, "type"@, "isotropic"@) ==> medium_of(
            n,
            m,
        )->Some_0.g == 0,
{
    reveal_strlit("hg");
    reveal_strlit("isotropic");
    assert("hg"@.len() == 2 && "isotropic"@.len() == 9);
    types_are_attributes(n, "homogeneous"@);
    the_first_child_counts(n, "phase"@, NameRule::Any, p);
    types_are_attributes(p, "hg"@);
    types_are_attributes(p, "isotropic"@);
    numbers_are_read(p, "g", g);
}

/// A medium lies between its two corners, if both are written and in order; otherwise everywhere.
pub proof fn media_are_where_they_say(n: Node, m: Readings, a: Text3, b: Text3)
    requires
        carries(n, "type"@, "homogeneous"@),
    ensures
        ({
            let lo = ((m.number)(a.0), (m.number)(a.1), (m.number)(a.2));
            let hi = ((m.number)(b.0), (m.number)(b.1), (m.number)(b.2));
            let both = places(n, "point"@, "bounds_min"@, a) && places(
                n,
                "point"@,
                "bounds_max"@,
                b,
            );
            let turned = below(hi.0, lo.0) || below(hi.1, lo.1) || below(hi.2, lo.2);
            &&& both && !turned ==> medium_of(n, m)->Some_0.bounds == Some((lo, hi))
            &&& both && turned ==> medium_of(n, m)->Some_0.bounds is None
            &&& silent(n, "point"@, "bounds_min"@) || silent(n, "point"@, "bounds_max"@)
                ==> medium_of(n, m)->Some_0.bounds is None
        }),
{
    types_are_attributes(n, "homogeneous"@);
    coordinates_are_read(n, "point"@, "bounds_min", a);
    coordinates_are_read(n, "point"@, "bounds_max", b);
}

/// Whatever is written, a medium takes light away and scatters at most what it takes; what is
/// already in range stays as it is.
pub proof fn media_are_usable(b: MediumBits)
    ensures
        ({
            let r = usable_medium(b);
            let one = 0x3FF0_0000_0000_0000u64;
            &&& fractions(r.albedo)
            &&& below(b.sigma_t.0, 0) ==> r.sigma_t.0 == 0
            &&& below(b.sigma_t.1, 0) ==> r.sigma_t.1 == 0
            &&& below(b.sigma_t.2, 0) ==> r.sigma_t.2 == 0
            &&& at_most(0, b.sigma_t.0) ==> r.sigma_t.0 == b.sigma_t.0
            &&& at_most(0, b.sigma_t.1) ==> r.sigma_t.1 == b.sigma_t.1
            &&& at_most(0, b.sigma_t.2) ==> r.sigma_t.2 == b.sigma_t.2
            &&& at_most(0, b.albedo.0) && at_most(b.albedo.0, one) ==> r.albedo.0 == b.albedo.0
            &&& at_most(0, b.albedo.1) && at_most(b.albedo.1, one) ==> r.albedo.1 == b.albedo.1
            &&& at_most(0, b.albedo.2) && at_most(b.albedo.2, one) ==> r.albedo.2 == b.albedo.2
            &&& below(one, b.albedo.0) ==> r.albedo.0 == one
            &&& below(one, b.albedo.1) ==> r.albedo.1 == one
            &&& below(one, b.albedo.2) ==> r.albedo.2 == one
            &&& below(b.albedo.0, 0) ==> r.albedo.0 == 0
            &&& below(b.albedo.1, 0) ==> r.albedo.1 == 0
            &&& below(b.albedo.2, 0) ==> r.albedo.2 == 0
            &&& below(0xBFF0_0000_0000_0000, r.g) && below(r.g, one)
            &&& below(0xBFF0_0000_0000_0000, b.g) && below(b.g, one) ==> r.g == b.g
            &&& is_nan(b.g) ==> r.g == 0
            &&& at_most(one, b.g) ==> r.g == 0x3FEF_AE14_7AE1_47AE
            &&& at_most(b.g, 0xBFF0_0000_0000_0000) ==> r.g == 0xBFEF_AE14_7AE1_47AE
        }),
{
}

} // verus!
