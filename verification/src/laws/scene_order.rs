//! The order of a scene: transformations, settings and elements take effect as they follow each
//! other in the document.

use super::scene_elements::{
    carries, lacks, says, silent, the_last_attribute_counts, types_are_attributes,
    whole_numbers_are_read, whole_numbers_may_be_missing,
};
use super::text_rules::decimals_are_read;
use crate::config::RenderConfig;
use crate::decimal::decimal_text;
use crate::mitsuba::assemble::{
    after_step, after_steps, finished, PlanModel, Progress, Surroundings,
};
use crate::mitsuba::lights::{
    environment_of, light_of, medium_of, sensor_of, EnvironmentModel, Text3,
};
use crate::mitsuba::props::{pieces, some_numbers, ColorModel};
use crate::mitsuba::scene::{
    all_steps, files_in, files_in_all, final_settings, path_in, settings_in, step_for, steps_for,
    with_settings, SceneSettings, StepModel,
};
use crate::mitsuba::shapes::shape_of;
use crate::mitsuba::transforms::{op_of, ops_of, OpModel};
use crate::mitsuba::xml::Node;
use crate::reals::below;
use crate::text::{is_float, parsed_unsigned, trimmed};
use vstd::prelude::*;

verus! {

/// Whether an attribute is written as a number, and which; or it is missing and `d` stands for it.
pub open spec fn number_in(n: Node, key: Seq<char>, d: Seq<char>, v: Seq<char>) -> bool {
    (exists|t: Seq<char>| #[trigger] carries(n, key, t) && trimmed(t) == v && is_float(v)) || (lacks(
        n,
        key,
    ) && v == d)
}

proof fn lemma_number(n: Node, key: Seq<char>, d: Seq<char>, v: Seq<char>)
    requires
        number_in(n, key, d, v),
    ensures
        crate::mitsuba::transforms::number_or(n, key, d) == v,
{
    if lacks(n, key) && v == d {
        the_last_attribute_counts(n, key, v);
    } else {
        let t = choose|t: Seq<char>| #[trigger] carries(n, key, t) && trimmed(t) == v && is_float(v);
        the_last_attribute_counts(n, key, t);
    }
}

/// The names of the transformations are different.
proof fn lemma_ops()
    ensures
        "translate"@ != "scale"@ && "translate"@ != "rotate"@ && "translate"@ != "matrix"@,
        "scale"@ != "rotate"@ && "scale"@ != "matrix"@ && "rotate"@ != "matrix"@,
{
    reveal_strlit("translate");
    reveal_strlit("scale");
    reveal_strlit("rotate");
    reveal_strlit("matrix");
    assert("translate"@.len() == 9 && "scale"@.len() == 5 && "rotate"@.len() == 6 && "matrix"@.len() == 6);
    assert("rotate"@[0] == 'r' && "matrix"@[0] == 'm');
}

/// A shift goes as far along each axis as the attribute of that axis says, not at all where it says
/// nothing; a scale likewise stretches by what is said, or not at all.
pub proof fn shifts_and_scales_are_per_axis(
    n: Node,
    x: Seq<char>,
    y: Seq<char>,
    z: Seq<char>,
    len: spec_fn(Text3) -> u64,
)
    ensures
        n.tag == "translate"@ && number_in(n, "x"@, "0"@, x) && number_in(n, "y"@, "0"@, y)
            && number_in(n, "z"@, "0"@, z) ==> op_of(n, len) == Some(OpModel::Translate((x, y, z))),
        n.tag == "scale"@ && lacks(n, "value"@) && number_in(n, "x"@, "1"@, x) && number_in(
            n,
            "y"@,
            "1"@,
            y,
        ) && number_in(n, "z"@, "1"@, z) ==> op_of(n, len) == Some(OpModel::Scale((x, y, z))),
        n.tag == "scale"@ && carries(n, "value"@, x) && is_float(trimmed(x)) ==> op_of(n, len)
            == Some(OpModel::Scale((trimmed(x), trimmed(x), trimmed(x)))),
{
    lemma_ops();
    the_last_attribute_counts(n, "value"@, x);
    if n.tag == "translate"@ && number_in(n, "x"@, "0"@, x) && number_in(n, "y"@, "0"@, y)
        && number_in(n, "z"@, "0"@, z) {
        lemma_number(n, "x"@, "0"@, x);
        lemma_number(n, "y"@, "0"@, y);
        lemma_number(n, "z"@, "0"@, z);
    }
    if n.tag == "scale"@ && number_in(n, "x"@, "1"@, x) && number_in(n, "y"@, "1"@, y) && number_in(
        n,
        "z"@,
        "1"@,
        z,
    ) {
        lemma_number(n, "x"@, "1"@, x);
        lemma_number(n, "y"@, "1"@, y);
        lemma_number(n, "z"@, "1"@, z);
    }
}

/// A turn is about the axis and by the angle that are written, if the axis has a length.
pub proof fn turns_are_about_an_axis(
    n: Node,
    x: Seq<char>,
    y: Seq<char>,
    z: Seq<char>,
    a: Seq<char>,
    len: spec_fn(Text3) -> u64,
)
    requires
        n.tag == "rotate"@,
        number_in(n, "x"@, "0"@, x),
        number_in(n, "y"@, "0"@, y),
        number_in(n, "z"@, "0"@, z),
        number_in(n, "angle"@, "0"@, a),
    ensures
        below(len((x, y, z)), 0x3D71_9799_812D_EA11) ==> op_of(n, len) is None,
        !below(len((x, y, z)), 0x3D71_9799_812D_EA11) ==> op_of(n, len) == Some(
            OpModel::Rotate { axis: (x, y, z), angle: a },
        ),
{
    lemma_ops();
    lemma_number(n, "x"@, "0"@, x);
    lemma_number(n, "y"@, "0"@, y);
    lemma_number(n, "z"@, "0"@, z);
    lemma_number(n, "angle"@, "0"@, a);
}

/// Transformations follow each other as they are written.
pub proof fn transformations_keep_their_order(
    a: Seq<Node>,
    b: Seq<Node>,
    n: Node,
    len: spec_fn(Text3) -> u64,
)
    ensures
        ops_of(a + b, len) == ops_of(a, len) + ops_of(b, len),
        op_of(n, len) is Some ==> ops_of(seq![n], len) == seq![op_of(n, len)->Some_0],
        op_of(n, len) is None ==> ops_of(seq![n], len) == Seq::<OpModel>::empty(),
    decreases b.len(),
{
    assert(seq![n].drop_last() =~= Seq::<Node>::empty());
    assert(ops_of(Seq::<Node>::empty(), len) =~= Seq::<OpModel>::empty());
    assert(op_of(n, len) is Some ==> ops_of(seq![n], len) =~= seq![op_of(n, len)->Some_0]);
    if b.len() > 0 {
        transformations_keep_their_order(a, b.drop_last(), n, len);
        assert((a + b).drop_last() =~= a + b.drop_last());
        assert((a + b).last() == b.last());
        assert(ops_of(a + b, len) =~= ops_of(a, len) + ops_of(b, len));
    } else {
        assert(a + b =~= a);
        assert(ops_of(a, len) + ops_of(b, len) =~= ops_of(a, len));
    }
}

/// Whether an element has this whole number, written in decimal digits.
pub open spec fn counts(n: Node, name: Seq<char>, v: nat) -> bool {
    says(n, "integer"@, name, decimal_text(v))
}

proof fn lemma_counts(n: Node, name: &str, v: nat)
    requires
        counts(n, name@, v),
    ensures
        v <= usize::MAX ==> crate::mitsuba::props::int_of(n, name) == Some(v as int),
        v <= i64::MAX ==> crate::mitsuba::props::int_signed_of(n, name) == Some(v as int),
{
    decimals_are_read(v, -(v as int), v as int);
    if v <= usize::MAX {
        decimals_are_read(v, -(usize::MAX as int), usize::MAX as int);
    }
    if v <= i64::MAX {
        decimals_are_read(v, i64::MIN as int, i64::MAX as int);
    }
    super::text_rules::tight_text_is_left_alone(decimal_text(v));
    whole_numbers_are_read(n, name, decimal_text(v), v as int);
}

/// The names of the settings are different.
proof fn lemma_settings()
    ensures
        "film"@ != "sampler"@ && "film"@ != "integrator"@ && "sampler"@ != "integrator"@,
{
    reveal_strlit("film");
    reveal_strlit("sampler");
    reveal_strlit("integrator");
    assert("film"@.len() == 4 && "sampler"@.len() == 7 && "integrator"@.len() == 10);
}

/// A film sets the width and the height that it says, at least one, and nothing else.
pub proof fn films_set_the_size(s: SceneSettings, c: Node, w: nat, h: nat)
    requires
        c.tag == "film"@,
        w <= usize::MAX && h <= usize::MAX,
    ensures
        ({
            let r = with_settings(s, c);
            &&& counts(c, "width"@, w) && w > 0 ==> r.width == Some(w as usize)
            &&& counts(c, "width"@, 0) ==> r.width == Some(1usize)
            &&& silent(c, "integer"@, "width"@) ==> r.width == s.width
            &&& counts(c, "height"@, h) && h > 0 ==> r.height == Some(h as usize)
            &&& counts(c, "height"@, 0) ==> r.height == Some(1usize)
            &&& silent(c, "integer"@, "height"@) ==> r.height == s.height
            &&& r.spp == s.spp && r.max_depth == s.max_depth && r.rr_depth == s.rr_depth
        }),
{
    lemma_settings();
    if counts(c, "width"@, w) {
        lemma_counts(c, "width", w);
    }
    if counts(c, "height"@, h) {
        lemma_counts(c, "height", h);
    }
    if counts(c, "width"@, 0) {
        lemma_counts(c, "width", 0);
    }
    if counts(c, "height"@, 0) {
        lemma_counts(c, "height", 0);
    }
    if silent(c, "integer"@, "width"@) {
        whole_numbers_may_be_missing(c, "width");
    }
    if silent(c, "integer"@, "height"@) {
        whole_numbers_may_be_missing(c, "height");
    }
}

/// A sampler sets the number of samples that it says, at least one, and nothing else.
pub proof fn samplers_set_the_samples(s: SceneSettings, c: Node, v: nat)
    requires
        c.tag == "sampler"@,
        v <= usize::MAX,
    ensures
        ({
            let r = with_settings(s, c);
            &&& counts(c, "sample_count"@, v) && v > 0 ==> r.spp == Some(v as usize)
            &&& counts(c, "sample_count"@, 0) ==> r.spp == Some(1usize)
            &&& silent(c, "integer"@, "sample_count"@) ==> r.spp == s.spp
            &&& r.width == s.width && r.height == s.height && r.max_depth == s.max_depth
                && r.rr_depth == s.rr_depth
        }),
{
    lemma_settings();
    if counts(c, "sample_count"@, v) {
        lemma_counts(c, "sample_count", v);
    }
    if counts(c, "sample_count"@, 0) {
        lemma_counts(c, "sample_count", 0);
    }
    if silent(c, "integer"@, "sample_count"@) {
        whole_numbers_may_be_missing(c, "sample_count");
    }
}

/// An integrator sets how long paths may be and from where on they may end by chance, each by its own
/// property, and nothing else; a length of minus one sets no limit.
pub proof fn integrators_set_the_paths(s: SceneSettings, c: Node, d: nat, r: nat)
    requires
        c.tag == "integrator"@,
        d <= i64::MAX && d <= usize::MAX,
        r <= i64::MAX && r <= usize::MAX,
    ensures
        ({
            let o = with_settings(s, c);
            &&& counts(c, "max_depth"@, d) ==> o.max_depth == Some(d as usize)
            &&& says(c, "integer"@, "max_depth"@, seq!['-'] + decimal_text(1)) ==> o.max_depth == Some(
                usize::MAX,
            )
            &&& silent(c, "integer"@, "max_depth"@) ==> o.max_depth == s.max_depth
            &&& counts(c, "rr_depth"@, r) && r > 0 ==> o.rr_depth == Some(r as usize)
            &&& counts(c, "rr_depth"@, 0) ==> o.rr_depth == s.rr_depth
            &&& silent(c, "integer"@, "rr_depth"@) ==> o.rr_depth == s.rr_depth
            &&& o.width == s.width && o.height == s.height && o.spp == s.spp
        }),
{
    lemma_settings();
    if counts(c, "max_depth"@, d) {
        lemma_counts(c, "max_depth", d);
    }
    if counts(c, "rr_depth"@, r) {
        lemma_counts(c, "rr_depth", r);
    }
    if counts(c, "rr_depth"@, 0) {
        lemma_counts(c, "rr_depth", 0);
    }
    if silent(c, "integer"@, "max_depth"@) {
        whole_numbers_may_be_missing(c, "max_depth");
    }
    if silent(c, "integer"@, "rr_depth"@) {
        whole_numbers_may_be_missing(c, "rr_depth");
    }
    let minus = seq!['-'] + decimal_text(1);
    if says(c, "integer"@, "max_depth"@, minus) {
        super::text_rules::blanks_are_space();
        decimals_are_read(1, i64::MIN as int, i64::MAX as int);
        assert(minus.last() == decimal_text(1).last());
        super::text_rules::tight_text_is_left_alone(minus);
        whole_numbers_are_read(c, "max_depth", minus, -1);
    }
}

/// Settings follow each other: what a later element sets replaces what an earlier one set, and what
/// it does not set stays; other elements set nothing.
pub proof fn later_settings_replace_earlier_ones(c: Seq<Node>, n: Node)
    ensures
        settings_in(c.push(n)) == with_settings(settings_in(c), n),
        settings_in(Seq::empty()) == (SceneSettings {
            width: None,
            height: None,
            spp: None,
            max_depth: None,
            rr_depth: None,
        }),
        n.tag != "film"@ && n.tag != "sampler"@ && n.tag != "integrator"@ ==> with_settings(
            settings_in(c),
            n,
        ) == settings_in(c),
{
    assert(c.push(n).drop_last() =~= c);
}

/// The size of a picture is what was forced, before what the scene says, before what was there.
pub proof fn sizes_may_be_forced(
    c: Seq<Node>,
    b: RenderConfig,
    w: Option<usize>,
    h: Option<usize>,
)
    ensures
        ({
            let r = final_settings(c, b, (w, h));
            let s = settings_in(c);
            &&& w is Some ==> r.width == w
            &&& w is None && s.width is Some ==> r.width == s.width
            &&& w is None && s.width is None ==> r.width == Some(b.width)
            &&& h is Some ==> r.height == h
            &&& h is None && s.height is Some ==> r.height == s.height
            &&& h is None && s.height is None ==> r.height == Some(b.height)
            &&& r.spp == s.spp && r.max_depth == s.max_depth && r.rr_depth == s.rr_depth
        }),
{
}

/// The names of the elements are different.
proof fn lemma_tags()
    ensures
        "sensor"@ != "shape"@ && "sensor"@ != "emitter"@ && "sensor"@ != "medium"@,
        "shape"@ != "emitter"@ && "shape"@ != "medium"@ && "emitter"@ != "medium"@,
        "point"@ != "directional"@ && "point"@ != "spot"@ && "directional"@ != "spot"@,
{
    reveal_strlit("sensor");
    reveal_strlit("shape");
    reveal_strlit("emitter");
    reveal_strlit("medium");
    reveal_strlit("point");
    reveal_strlit("directional");
    reveal_strlit("spot");
    assert("sensor"@.len() == 6 && "shape"@.len() == 5 && "emitter"@.len() == 7 && "medium"@.len() == 6);
    assert("sensor"@[0] == 's' && "medium"@[0] == 'm');
    assert("point"@.len() == 5 && "directional"@.len() == 11 && "spot"@.len() == 4);
}

/// Each element of a scene is dealt with for what it is.
pub proof fn elements_are_told_apart(before: Seq<Node>, c: Node, i: int, t: Seq<char>)
    requires
        carries(c, "type"@, t),
    ensures
        c.tag == "shape"@ ==> step_for(before, c, i) == Some(StepModel::Shape(i)),
        c.tag == "sensor"@ && t == "perspective"@ ==> step_for(before, c, i) == Some(
            StepModel::Sensor(i),
        ),
        c.tag == "sensor"@ && t != "perspective"@ ==> step_for(before, c, i) is Some && step_for(
            before,
            c,
            i,
        )->Some_0 is Warning,
        c.tag == "emitter"@ && (t == "point"@ || t == "directional"@ || t == "spot"@) ==> step_for(
            before,
            c,
            i,
        ) == Some(StepModel::Light(i)),
        c.tag == "emitter"@ && t != "point"@ && t != "directional"@ && t != "spot"@ ==> step_for(
            before,
            c,
            i,
        ) == Some(StepModel::Environment(i)),
        c.tag == "medium"@ && (forall|j: int|
            0 <= j < before.len() ==> (#[trigger] before[j]).tag != "medium"@) ==> step_for(
            before,
            c,
            i,
        ) == Some(StepModel::Medium(i)),
        c.tag == "medium"@ && (exists|j: int|
            0 <= j < before.len() && (#[trigger] before[j]).tag == "medium"@) ==> step_for(
            before,
            c,
            i,
        )->Some_0 is Warning,
{
    lemma_tags();
    types_are_attributes(c, t);
}

/// Elements are dealt with in the order of the document.
pub proof fn elements_keep_their_order(c: Seq<Node>, n: Node)
    ensures
        step_for(c, n, c.len() as int) is Some ==> steps_for(c.push(n)) == steps_for(c).push(
            step_for(c, n, c.len() as int)->Some_0,
        ),
        step_for(c, n, c.len() as int) is None ==> steps_for(c.push(n)) == steps_for(c),
        steps_for(Seq::empty()) == Seq::<StepModel>::empty(),
{
    assert(c.push(n).drop_last() =~= c);
}

/// A scene gets a camera of its own: that it lacks one is said at the end, and nothing else is
/// added.
pub proof fn scenes_without_a_camera_are_told(c: Seq<Node>)
    ensures
        (exists|i: int| 0 <= i < steps_for(c).len() && (#[trigger] steps_for(c)[i]) is Sensor)
            ==> all_steps(c) == steps_for(c),
        (forall|i: int| 0 <= i < steps_for(c).len() ==> !((#[trigger] steps_for(c)[i]) is Sensor))
            ==> all_steps(c).len() == steps_for(c).len() + 1 && all_steps(c).drop_last() == steps_for(
            c,
        ) && all_steps(c).last() is Warning,
{
    assert(all_steps(c).drop_last() =~= steps_for(c) || all_steps(c) == steps_for(c));
}

/// A camera replaces the one before and leaves the rest of the scene alone.
pub proof fn cameras_replace_each_other(p: Progress, i: int, c: Seq<Node>, x: Surroundings)
    ensures
        after_step(p, StepModel::Sensor(i), c, x).plan == (PlanModel {
            sensor: Some(sensor_of(c[i], x.readings)),
            ..p.plan
        }),
{
}

/// A shape is placed at the end, with what it adds to the tables, and leaves the rest of the scene
/// alone.
pub proof fn shapes_are_added_at_the_end(p: Progress, i: int, c: Seq<Node>, x: Surroundings)
    ensures
        ({
            let o = shape_of(
                c[i],
                x.readings.length,
                x.base,
                x.files[i],
                x.images,
                p.plan.tables,
                p.warnings,
            );
            let r = after_step(p, StepModel::Shape(i), c, x);
            &&& r.plan.placements == p.plan.placements.push(o.placed)
            &&& r.plan.tables == o.tables
            &&& r.warnings == o.warnings
            &&& r.plan.sensor == p.plan.sensor && r.plan.lights == p.plan.lights
            &&& r.plan.environment == p.plan.environment && r.plan.medium == p.plan.medium
        }),
{
}

/// A light is added at the end, if it is one, and leaves the rest of the scene alone.
pub proof fn lights_are_added_at_the_end(p: Progress, i: int, c: Seq<Node>, x: Surroundings)
    ensures
        light_of(c[i], x.readings) is Some ==> after_step(p, StepModel::Light(i), c, x).plan == (
        PlanModel { lights: p.plan.lights.push(light_of(c[i], x.readings)->Some_0), ..p.plan }),
        light_of(c[i], x.readings) is None ==> after_step(p, StepModel::Light(i), c, x).plan
            == p.plan,
{
}

/// An environment replaces the one before, if it can be had, and leaves the rest of the scene alone;
/// so does the medium.
pub proof fn environments_replace_each_other(p: Progress, i: int, c: Seq<Node>, x: Surroundings)
    ensures
        environment_of(c[i], x.base, x.images) is Some ==> after_step(
            p,
            StepModel::Environment(i),
            c,
            x,
        ).plan == (PlanModel {
            environment: environment_of(c[i], x.base, x.images)->Some_0,
            ..p.plan
        }),
        environment_of(c[i], x.base, x.images) is None ==> after_step(
            p,
            StepModel::Environment(i),
            c,
            x,
        ).plan == p.plan,
        after_step(p, StepModel::Medium(i), c, x).plan == (PlanModel {
            medium: medium_of(c[i], x.readings),
            ..p.plan
        }),
{
}

/// Steps are taken one after the other, from an empty scene on.
pub proof fn steps_are_taken_in_order(
    w: Seq<Seq<char>>,
    s: Seq<StepModel>,
    t: StepModel,
    c: Seq<Node>,
    x: Surroundings,
)
    ensures
        after_steps(w, s.push(t), c, x) == after_step(after_steps(w, s, c, x), t, c, x),
        after_steps(w, Seq::empty(), c, x).warnings == w,
        after_steps(w, Seq::empty(), c, x).plan.sensor is None,
        after_steps(w, Seq::empty(), c, x).plan.medium is None,
        after_steps(w, Seq::empty(), c, x).plan.placements.len() == 0,
        after_steps(w, Seq::empty(), c, x).plan.lights.len() == 0,
        after_steps(w, Seq::empty(), c, x).plan.tables.mats.len() == 0,
        after_steps(w, Seq::empty(), c, x).plan.tables.meshes.len() == 0,
{
    assert(s.push(t).drop_last() =~= s);
}

/// The number of shapes among some steps.
pub open spec fn shapes_among(s: Seq<StepModel>) -> nat
    decreases s.len(),
{
    if s.len() == 0 {
        0
    } else {
        shapes_among(s.drop_last()) + (if s.last() is Shape {
            1nat
        } else {
            0
        })
    }
}

/// One step places one shape at most, and only a camera changes the camera.
proof fn lemma_step(p: Progress, t: StepModel, c: Seq<Node>, x: Surroundings)
    ensures
        after_step(p, t, c, x).plan.placements.len() == p.plan.placements.len() + (if t is Shape {
            1int
        } else {
            0
        }),
        t is Sensor ==> after_step(p, t, c, x).plan.sensor == Some(
            sensor_of(c[t->Sensor_0], x.readings),
        ),
        !(t is Sensor) ==> after_step(p, t, c, x).plan.sensor == p.plan.sensor,
{
    match t {
        StepModel::Sensor(i) => cameras_replace_each_other(p, i, c, x),
        StepModel::Shape(i) => shapes_are_added_at_the_end(p, i, c, x),
        StepModel::Light(i) => lights_are_added_at_the_end(p, i, c, x),
        StepModel::Environment(i) => environments_replace_each_other(p, i, c, x),
        StepModel::Medium(i) => environments_replace_each_other(p, i, c, x),
        StepModel::Warning(_) => {},
    }
}

/// A scene has one placement for each shape.
pub proof fn every_shape_is_placed(
    w: Seq<Seq<char>>,
    s: Seq<StepModel>,
    c: Seq<Node>,
    x: Surroundings,
)
    ensures
        after_steps(w, s, c, x).plan.placements.len() == shapes_among(s),
    decreases s.len(),
{
    if s.len() > 0 {
        every_shape_is_placed(w, s.drop_last(), c, x);
        lemma_step(after_steps(w, s.drop_last(), c, x), s.last(), c, x);
    }
}

/// The camera of a scene is its last one.
pub proof fn the_last_camera_counts(
    w: Seq<Seq<char>>,
    s: Seq<StepModel>,
    c: Seq<Node>,
    x: Surroundings,
    k: int,
)
    requires
        0 <= k < s.len(),
        s[k] is Sensor,
        forall|j: int| k < j < s.len() ==> !((#[trigger] s[j]) is Sensor),
    ensures
        after_steps(w, s, c, x).plan.sensor == Some(sensor_of(c[s[k]->Sensor_0], x.readings)),
    decreases s.len(),
{
    let d = s.drop_last();
    lemma_step(after_steps(w, d, c, x), s.last(), c, x);
    if k < s.len() - 1 {
        assert(!(s[s.len() - 1] is Sensor));
        assert forall|j: int| k < j < d.len() implies !((#[trigger] d[j]) is Sensor) by {
            assert(!(s[j] is Sensor));
        }
        the_last_camera_counts(w, d, c, x, k);
    }
}

/// In a finished scene nothing changes but that the list of maps is left empty if there is no map.
pub proof fn finishing_only_drops_missing_maps(p: PlanModel)
    ensures
        ({
            let q = finished(p);
            let m = p.tables.mat_maps;
            &&& q.sensor == p.sensor && q.placements == p.placements && q.lights == p.lights
            &&& q.environment == p.environment && q.medium == p.medium
            &&& q.tables.mats == p.tables.mats && q.tables.meshes == p.tables.meshes
            &&& (exists|i: int| 0 <= i < m.len() && (#[trigger] m[i]) is Some)
                ==> q.tables.mat_maps == m
            &&& (forall|i: int| 0 <= i < m.len() ==> (#[trigger] m[i]) is None)
                ==> q.tables.mat_maps == Seq::<Option<int>>::empty()
        }),
{
}

/// The files that a scene needs are named in the order of the document, those of an element before
/// those of its children.
pub proof fn files_keep_their_order(n: Node, a: Seq<Node>, b: Seq<Node>, base: Seq<char>, f: Seq<char>)
    ensures
        n.tag == "string"@ && (carries(n, "name"@, "filename"@) || carries(
            n,
            "name"@,
            "filename_end"@,
        )) && carries(n, "value"@, f) ==> files_in(n, base) == seq![path_in(base, f)] + files_in_all(
            n.children,
            base,
        ),
        n.tag != "string"@ ==> files_in(n, base) == files_in_all(n.children, base),
        files_in_all(a + b, base) == files_in_all(a, base) + files_in_all(b, base),
        files_in_all(seq![n], base) == files_in(n, base),
    decreases b.len(),
{
    the_last_attribute_counts(n, "name"@, "filename"@);
    the_last_attribute_counts(n, "name"@, "filename_end"@);
    the_last_attribute_counts(n, "value"@, f);
    let none = Seq::<Seq<char>>::empty();
    assert(none + files_in_all(n.children, base) =~= files_in_all(n.children, base));
    assert(seq![n].drop_last() =~= Seq::<Node>::empty());
    assert(files_in_all(Seq::<Node>::empty(), base) =~= none);
    assert(none + files_in(n, base) =~= files_in(n, base));
    if b.len() > 0 {
        files_keep_their_order(n, a, b.drop_last(), base, f);
        assert((a + b).drop_last() =~= a + b.drop_last());
        assert((a + b).last() == b.last());
        assert(files_in_all(a + b, base) =~= files_in_all(a, base) + files_in_all(b, base));
    } else {
        assert(a + b =~= a);
        assert(files_in_all(a, base) + none =~= files_in_all(a, base));
    }
}

/// A matrix is its sixteen numbers, in their order; with more or fewer it is none.
pub proof fn matrices_have_sixteen_numbers(n: Node, v: Seq<char>, len: spec_fn(Text3) -> u64)
    requires
        n.tag == "matrix"@,
        carries(n, "value"@, v),
        forall|i: int| 0 <= i < pieces(v).len() ==> is_float(trimmed(#[trigger] pieces(v)[i])),
    ensures
        pieces(v).len() == 16 ==> op_of(n, len) is Some && op_of(n, len)->Some_0 is Matrix && op_of(
            n,
            len,
        )->Some_0->Matrix_0.len() == 16 && (forall|i: int|
            0 <= i < 16 ==> #[trigger] op_of(n, len)->Some_0->Matrix_0[i] == trimmed(pieces(v)[i])),
        pieces(v).len() != 16 ==> op_of(n, len) is None,
{
    lemma_ops();
    the_last_attribute_counts(n, "value"@, v);
    lemma_some_numbers(pieces(v));
}

proof fn lemma_some_numbers(p: Seq<Seq<char>>)
    requires
        forall|i: int| 0 <= i < p.len() ==> is_float(trimmed(#[trigger] p[i])),
    ensures
        some_numbers(p).len() == p.len(),
        forall|i: int| 0 <= i < p.len() ==> #[trigger] some_numbers(p)[i] == trimmed(p[i]),
    decreases p.len(),
{
    if p.len() > 0 {
        let d = p.drop_last();
        assert forall|i: int| 0 <= i < d.len() implies is_float(trimmed(#[trigger] d[i])) by {
            assert(is_float(trimmed(p[i])));
        }
        lemma_some_numbers(d);
        assert(is_float(trimmed(p[p.len() - 1])));
        assert forall|i: int| 0 <= i < p.len() implies #[trigger] some_numbers(p)[i] == trimmed(p[i]) by {
            if i < d.len() {
                assert(some_numbers(d)[i] == trimmed(d[i]));
            }
        }
    }
}

/// Settings take no step of their own, and what is unknown is only warned of.
pub proof fn settings_take_no_step(before: Seq<Node>, c: Node, i: int)
    ensures
        c.tag == "integrator"@ || c.tag == "sampler"@ || c.tag == "film"@ || c.tag == "default"@
            || c.tag == "rfilter"@ ==> step_for(before, c, i) is None,
        c.tag != "integrator"@ && c.tag != "sampler"@ && c.tag != "film"@ && c.tag != "default"@
            && c.tag != "rfilter"@ && c.tag != "sensor"@ && c.tag != "shape"@ && c.tag
            != "emitter"@ && c.tag != "medium"@ ==> step_for(before, c, i) is Some && step_for(
            before,
            c,
            i,
        )->Some_0 is Warning,
{
    lemma_tags();
    reveal_strlit("integrator");
    reveal_strlit("sampler");
    reveal_strlit("film");
    reveal_strlit("default");
    reveal_strlit("rfilter");
    reveal_strlit("sensor");
    reveal_strlit("shape");
    reveal_strlit("emitter");
    reveal_strlit("medium");
    assert("integrator"@.len() == 10 && "sampler"@.len() == 7 && "film"@.len() == 4);
    assert("default"@.len() == 7 && "rfilter"@.len() == 7);
    assert("sensor"@.len() == 6 && "shape"@.len() == 5 && "emitter"@.len() == 7 && "medium"@.len() == 6);
    assert("sampler"@[0] == 's' && "default"@[0] == 'd' && "rfilter"@[0] == 'r' && "emitter"@[0] == 'e');
}

/// Around a scene that says nothing of it there is darkness.
pub proof fn scenes_start_in_darkness(w: Seq<Seq<char>>, c: Seq<Node>, x: Surroundings)
    ensures
        after_steps(w, Seq::empty(), c, x).plan.environment == (EnvironmentModel::Constant {
            radiance: ColorModel { srgb: false, v: ("0"@, "0"@, "0"@) },
            scale: "1"@,
        }),
{
}

/// A size or a length that cannot be read leaves what was set before.
pub proof fn unreadable_settings_leave_the_rest(s: SceneSettings, c: Node, t: Seq<char>, d: nat)
    requires
        1 < d <= i64::MAX,
    ensures
        c.tag == "film"@ && says(c, "integer"@, "width"@, t) && parsed_unsigned(
            trimmed(t),
            usize::MAX as int,
        ) is None ==> with_settings(s, c).width == s.width,
        c.tag == "film"@ && says(c, "integer"@, "height"@, t) && parsed_unsigned(
            trimmed(t),
            usize::MAX as int,
        ) is None ==> with_settings(s, c).height == s.height,
        c.tag == "integrator"@ && says(c, "integer"@, "max_depth"@, seq!['-'] + decimal_text(d))
            ==> with_settings(s, c).max_depth == s.max_depth,
        c.tag == "integrator"@ && says(c, "integer"@, "rr_depth"@, seq!['-'] + decimal_text(d))
            ==> with_settings(s, c).rr_depth == s.rr_depth,
{
    lemma_settings();
    let minus = seq!['-'] + decimal_text(d);
    decimals_are_read(d, i64::MIN as int, i64::MAX as int);
    super::text_rules::tight_text_is_left_alone(minus);
    if says(c, "integer"@, "width"@, t) {
        whole_numbers_are_read(c, "width", t, 0);
    }
    if says(c, "integer"@, "height"@, t) {
        whole_numbers_are_read(c, "height", t, 0);
    }
    if says(c, "integer"@, "max_depth"@, minus) {
        whole_numbers_are_read(c, "max_depth", minus, -(d as int));
    }
    if says(c, "integer"@, "rr_depth"@, minus) {
        whole_numbers_are_read(c, "rr_depth", minus, -(d as int));
    }
}

} // verus!
