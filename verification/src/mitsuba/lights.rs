//! The medium, the lights without extent, the environment and the camera of a scene.
//!
//! The properties are read with their numbers as text. Once the numbers are known, what lies
//! outside its range is moved into it: that is decided on the bits of the numbers.

use super::gauge::{answers, reads, Gauge, Readings};
use super::materials::{
    color_else, color_or, environment_error, environment_error_of, image_models, load_failed,
    text_else, text_or, Image, ImageModel,
};
use super::props::{
    attr, child, color_of, color_or_float_of, float_of, joined, opt_triple, parse_vec3, prop_value, triple,
    triple_of, typ, vec3_of, warn1, warn3, warn5, ColorModel, ColorText, NameRule,
};
use super::scene::{path_in, resolve_path};
use super::xml::{Element, Node};
use crate::mtl::opt_text;
use crate::obj::{strings, Triple};
use crate::reals::{
    all_not_negative, any_negative, at_most, below, between, clamp, drop_negative, finite,
    is_finite, is_nan, less, less_or_equal, nan, not_negative, without_negative, Bits3, MINUS_ONE,
    NEARLY_MINUS_ONE, NEARLY_ONE, NINETY, ONE, TWENTY, ZERO,
};
use crate::text::{copied, same_str};
use vstd::prelude::*;

verus! {

/// Three numbers as text.
pub type Text3 = (Seq<char>, Seq<char>, Seq<char>);

/// Three numbers, or others in their place.
pub open spec fn triple_or(t: Option<Text3>, d: Text3) -> Text3 {
    match t {
        Some(x) => x,
        None => d,
    }
}

fn triple_else(t: Option<Triple>, x: &str, y: &str, z: &str) -> (r: Triple)
    ensures
        r@ == triple_or(opt_triple(t), (x@, y@, z@)),
{
    match t {
        Some(v) => v,
        None => Triple { x: copied(x), y: copied(y), z: copied(z) },
    }
}

/// A homogeneous medium, its numbers as bits.
#[derive(Clone, Copy, Debug, PartialEq, Eq)]
pub struct MediumBits {
    /// Extinction.
    pub sigma_t: Bits3,
    /// Single-scattering albedo.
    pub albedo: Bits3,
    /// Anisotropy of the phase function.
    pub g: u64,
    /// Where the medium is; everywhere if this is missing.
    pub bounds: Option<(Bits3, Bits3)>,
}

pub open spec fn in_unit_range(b: u64) -> bool {
    at_most(ZERO, b) && at_most(b, ONE)
}

pub open spec fn albedo_fits(c: Bits3) -> bool {
    in_unit_range(c.0) && in_unit_range(c.1) && in_unit_range(c.2)
}

/// A number moved into the unit range; zero for what is not a number.
pub open spec fn unit(b: u64) -> u64 {
    between(ZERO, not_negative(b), ONE)
}

pub open spec fn units(c: Bits3) -> Bits3 {
    if albedo_fits(c) {
        c
    } else {
        (unit(c.0), unit(c.1), unit(c.2))
    }
}

pub open spec fn anisotropy_fits(g: u64) -> bool {
    below(MINUS_ONE, g) && below(g, ONE)
}

/// An anisotropy that the phase function can have.
pub open spec fn usable_anisotropy(g: u64) -> u64 {
    if anisotropy_fits(g) {
        g
    } else if is_nan(g) {
        ZERO
    } else {
        between(NEARLY_MINUS_ONE, g, NEARLY_ONE)
    }
}

/// Whether the corners of a box are the wrong way round.
pub open spec fn reversed(b: (Bits3, Bits3)) -> bool {
    below(b.1.0, b.0.0) || below(b.1.1, b.0.1) || below(b.1.2, b.0.2)
}

/// The medium, with every number in its range.
pub open spec fn usable_medium(m: MediumBits) -> MediumBits {
    MediumBits {
        sigma_t: all_not_negative(m.sigma_t),
        albedo: units(m.albedo),
        g: usable_anisotropy(m.g),
        bounds: match m.bounds {
            Some(b) => if reversed(b) {
                None
            } else {
                m.bounds
            },
            None => None,
        },
    }
}

/// The numbers of three texts.
pub open spec fn three_readings(t: Text3, m: Readings) -> Bits3 {
    ((m.number)(t.0), (m.number)(t.1), (m.number)(t.2))
}

/// The anisotropy: that of the phase function, if it is one that has any.
pub open spec fn anisotropy_of(n: Node, m: Readings) -> u64 {
    match child(n, "phase"@, NameRule::Any) {
        Some(p) => if typ(p) == "hg"@ {
            (m.number)(text_or(float_of(p, "g"), "0"@))
        } else {
            ZERO
        },
        None => ZERO,
    }
}

/// The box of a medium, which needs both corners.
pub open spec fn bounds_of(n: Node, m: Readings) -> Option<(Bits3, Bits3)> {
    match (triple_of(n, "point"@, "bounds_min"), triple_of(n, "point"@, "bounds_max")) {
        (Some(lo), Some(hi)) => Some((three_readings(lo, m), three_readings(hi, m))),
        _ => None,
    }
}

/// The numbers of a medium as they are written.
pub open spec fn written_medium(n: Node, m: Readings) -> MediumBits {
    MediumBits {
        sigma_t: (m.color)(color_or(color_or_float_of(n, "sigma_t"), "1"@)),
        albedo: (m.color)(color_or(color_or_float_of(n, "albedo"), "1"@)),
        g: anisotropy_of(n, m),
        bounds: bounds_of(n, m),
    }
}

/// The medium that an element stands for.
pub open spec fn medium_of(n: Node, m: Readings) -> Option<MediumBits> {
    if typ(n) != "homogeneous"@ {
        None
    } else {
        Some(usable_medium(written_medium(n, m)))
    }
}

/// What the colours of a medium are warned of.
pub open spec fn substance_warnings(b: MediumBits) -> Seq<Seq<char>> {
    (if any_negative(b.sigma_t) {
        seq!["medium sigma_t must be >= 0; negative components set to 0"@]
    } else {
        Seq::<Seq<char>>::empty()
    }) + (if albedo_fits(b.albedo) {
        Seq::<Seq<char>>::empty()
    } else {
        seq!["medium albedo must be within [0, 1]; clamped"@]
    })
}

/// What the phase function of a medium is warned of.
pub open spec fn phase_warnings(n: Node, m: Readings) -> Seq<Seq<char>> {
    match child(n, "phase"@, NameRule::Any) {
        Some(p) => if typ(p) == "hg"@ {
            if anisotropy_fits(anisotropy_of(n, m)) {
                Seq::empty()
            } else {
                seq![
                    "phase g = "@ + (m.show)(anisotropy_of(n, m))
                        + " must be within (-1, 1); clamped to +-0.99"@,
                ]
            }
        } else if typ(p) == "isotropic"@ {
            Seq::empty()
        } else {
            seq!["unsupported phase type '"@ + typ(p) + "'; using isotropic"@]
        },
        None => Seq::empty(),
    }
}

/// What the box of a medium is warned of.
pub open spec fn bounds_warnings(n: Node, m: Readings) -> Seq<Seq<char>> {
    match bounds_of(n, m) {
        Some(b) => if reversed(b) {
            seq!["medium bounds_min exceeds bounds_max; treating the medium as unbounded"@]
        } else {
            Seq::empty()
        },
        None => if triple_of(n, "point"@, "bounds_min") is Some || triple_of(
            n,
            "point"@,
            "bounds_max",
        ) is Some {
            seq![
                "medium needs both bounds_min and bounds_max; treating the medium as unbounded"@,
            ]
        } else {
            Seq::empty()
        },
    }
}

/// What reading a medium warns of.
pub open spec fn medium_warnings(n: Node, m: Readings) -> Seq<Seq<char>> {
    if typ(n) != "homogeneous"@ {
        seq!["unsupported medium type '"@ + typ(n) + "', ignored"@]
    } else {
        substance_warnings(written_medium(n, m)) + phase_warnings(n, m) + bounds_warnings(n, m)
    }
}

fn unit_number(b: u64) -> (r: u64)
    ensures
        r == unit(b),
{
    clamp(ZERO, without_negative(b), ONE)
}

fn unit_range(b: u64) -> (r: bool)
    ensures
        r == in_unit_range(b),
{
    less_or_equal(ZERO, b) && less_or_equal(b, ONE)
}

fn check_albedo(c: Bits3) -> (r: (Bits3, bool))
    ensures
        r == (units(c), albedo_fits(c)),
{
    if unit_range(c.0) && unit_range(c.1) && unit_range(c.2) {
        (c, true)
    } else {
        ((unit_number(c.0), unit_number(c.1), unit_number(c.2)), false)
    }
}

fn check_anisotropy(g: u64) -> (r: (u64, bool))
    ensures
        r == (usable_anisotropy(g), anisotropy_fits(g)),
{
    if less(MINUS_ONE, g) && less(g, ONE) {
        (g, true)
    } else if nan(g) {
        (ZERO, false)
    } else {
        (clamp(NEARLY_MINUS_ONE, g, NEARLY_ONE), false)
    }
}

/// Moves the numbers of a medium into their ranges.
pub fn check_medium(m: MediumBits) -> (r: MediumBits)
    ensures
        r == usable_medium(m),
{
    let bounds = match m.bounds {
        Some((lo, hi)) => if less(hi.0, lo.0) || less(hi.1, lo.1) || less(hi.2, lo.2) {
            None
        } else {
            m.bounds
        },
        None => None,
    };
    MediumBits {
        sigma_t: drop_negative(m.sigma_t).0,
        albedo: check_albedo(m.albedo).0,
        g: check_anisotropy(m.g).0,
        bounds,
    }
}

fn read_three<
    N: Fn(&str) -> u64,
    C: Fn(&ColorText) -> Bits3,
    L: Fn(&Triple) -> u64,
    Q: Fn(u64) -> u64,
    S: Fn(u64) -> String,
>(t: &Triple, gauge: &Gauge<N, C, L, Q, S>) -> (r: Bits3)
    requires
        answers(*gauge),
    ensures
        forall|m: Readings| #[trigger] reads(*gauge, m) ==> r == three_readings(t@, m),
{
    ((gauge.number)(t.x.as_str()), (gauge.number)(t.y.as_str()), (gauge.number)(t.z.as_str()))
}

/// The anisotropy of a medium as it is written.
fn read_phase<
    N: Fn(&str) -> u64,
    C: Fn(&ColorText) -> Bits3,
    L: Fn(&Triple) -> u64,
    Q: Fn(u64) -> u64,
    S: Fn(u64) -> String,
>(el: &Element, gauge: &Gauge<N, C, L, Q, S>, warnings: &mut Vec<String>) -> (r: u64)
    requires
        answers(*gauge),
    ensures
        forall|m: Readings| #[trigger]
            reads(*gauge, m) ==> r == anisotropy_of(el.node(), m) && strings(final(warnings)@)
                == strings(old(warnings)@) + phase_warnings(el.node(), m),
{
    let ghost start = strings(warnings@);
    assert(start + Seq::<Seq<char>>::empty() =~= start);
    let p = match el.child_tag("phase") {
        None => {
            return ZERO;
        },
        Some(p) => p,
    };
    if p.is_typ("hg") {
        let text = text_else(p.float("g"), "0");
        let g: u64 = (gauge.number)(text.as_str());
        if !check_anisotropy(g).1 {
            let shown = (gauge.show)(g);
            warn3(
                warnings,
                "phase g = ",
                shown.as_str(),
                " must be within (-1, 1); clamped to +-0.99",
            );
            assert(strings(warnings@) =~= start + seq![
                "phase g = "@ + shown@ + " must be within (-1, 1); clamped to +-0.99"@,
            ]);
        }
        return g;
    }
    if !p.is_typ("isotropic") {
        warn3(warnings, "unsupported phase type '", p.typ(), "'; using isotropic");
        assert(strings(warnings@) =~= start + seq![
            "unsupported phase type '"@ + typ(p.node()) + "'; using isotropic"@,
        ]);
    }
    ZERO
}

/// The box of a medium as it is written.
fn read_bounds<
    N: Fn(&str) -> u64,
    C: Fn(&ColorText) -> Bits3,
    L: Fn(&Triple) -> u64,
    Q: Fn(u64) -> u64,
    S: Fn(u64) -> String,
>(el: &Element, gauge: &Gauge<N, C, L, Q, S>, warnings: &mut Vec<String>) -> (r: Option<
    (Bits3, Bits3),
>)
    requires
        answers(*gauge),
    ensures
        forall|m: Readings| #[trigger]
            reads(*gauge, m) ==> r == bounds_of(el.node(), m) && strings(final(warnings)@)
                == strings(old(warnings)@) + bounds_warnings(el.node(), m),
{
    let ghost start = strings(warnings@);
    assert(start + Seq::<Seq<char>>::empty() =~= start);
    match (el.point("bounds_min"), el.point("bounds_max")) {
        (Some(lo), Some(hi)) => {
            let a = read_three(&lo, gauge);
            let b = read_three(&hi, gauge);
            if less(b.0, a.0) || less(b.1, a.1) || less(b.2, a.2) {
                warn1(
                    warnings,
                    "medium bounds_min exceeds bounds_max; treating the medium as unbounded",
                );
                assert(strings(warnings@) =~= start + seq![
                    "medium bounds_min exceeds bounds_max; treating the medium as unbounded"@,
                ]);
            }
            Some((a, b))
        },
        (None, None) => None,
        _ => {
            warn1(
                warnings,
                "medium needs both bounds_min and bounds_max; treating the medium as unbounded",
            );
            assert(strings(warnings@) =~= start + seq![
                "medium needs both bounds_min and bounds_max; treating the medium as unbounded"@,
            ]);
            None
        },
    }
}

/// Reads a medium; its numbers are moved into their ranges.
pub fn parse_medium<
    N: Fn(&str) -> u64,
    C: Fn(&ColorText) -> Bits3,
    L: Fn(&Triple) -> u64,
    Q: Fn(u64) -> u64,
    S: Fn(u64) -> String,
>(el: &Element, gauge: &Gauge<N, C, L, Q, S>, warnings: &mut Vec<String>) -> (r: Option<
    MediumBits,
>)
    requires
        answers(*gauge),
    ensures
        forall|m: Readings| #[trigger]
            reads(*gauge, m) ==> r == medium_of(el.node(), m) && strings(final(warnings)@)
                == strings(old(warnings)@) + medium_warnings(el.node(), m),
{
    let ghost start = strings(warnings@);
    if !el.is_typ("homogeneous") {
        warn3(warnings, "unsupported medium type '", el.typ(), "', ignored");
        assert(strings(warnings@) =~= start + seq![
            "unsupported medium type '"@ + typ(el.node()) + "', ignored"@,
        ]);
        return None;
    }
    let sigma_text = color_else(el.color_or_float("sigma_t"), "1");
    let sigma_t = (gauge.color)(&sigma_text);
    if drop_negative(sigma_t).1 {
        warn1(warnings, "medium sigma_t must be >= 0; negative components set to 0");
    }
    let albedo_text = color_else(el.color_or_float("albedo"), "1");
    let albedo = (gauge.color)(&albedo_text);
    if !check_albedo(albedo).1 {
        warn1(warnings, "medium albedo must be within [0, 1]; clamped");
    }
    let ghost first = substance_warnings(MediumBits { sigma_t, albedo, g: 0, bounds: None });
    assert(strings(warnings@) =~= start + first);
    let g = read_phase(el, gauge, warnings);
    let bounds = read_bounds(el, gauge, warnings);
    proof {
        assert forall|m: Readings| #[trigger] reads(*gauge, m) implies strings(warnings@) == start
            + medium_warnings(el.node(), m) by {
            assert(substance_warnings(written_medium(el.node(), m)) == first);
            assert(strings(warnings@) =~= start + medium_warnings(el.node(), m));
        }
    }
    Some(check_medium(MediumBits { sigma_t, albedo, g, bounds }))
}

/// Whatever was written, the medium that is used has an albedo between zero and one, an
/// anisotropy strictly between minus one and one, no negative extinction and no box that is the
/// wrong way round; one that was right is left alone.
pub proof fn medium_is_usable(m: MediumBits)
    ensures
        albedo_fits(usable_medium(m).albedo),
        anisotropy_fits(usable_medium(m).g),
        !any_negative(usable_medium(m).sigma_t),
        usable_medium(m).bounds matches Some(b) ==> !reversed(b),
        !any_negative(m.sigma_t) && albedo_fits(m.albedo) && anisotropy_fits(m.g) && (
        m.bounds matches Some(b) ==> !reversed(b)) ==> usable_medium(m) == m,
{
}

/// A light without extent. Its angles are in degrees.
pub enum Light {
    Point { position: Triple, intensity: Bits3 },
    Directional { direction: Triple, irradiance: Bits3 },
    Spot {
        position: Triple,
        direction: Triple,
        intensity: Bits3,
        cutoff_angle: u64,
        beam_width: u64,
    },
}

pub enum LightModel {
    Point { position: Text3, intensity: Bits3 },
    Directional { direction: Text3, irradiance: Bits3 },
    Spot {
        position: Text3,
        direction: Text3,
        intensity: Bits3,
        cutoff_angle: u64,
        beam_width: u64,
    },
}

impl View for Light {
    type V = LightModel;

    open spec fn view(&self) -> LightModel {
        match self {
            Light::Point { position, intensity } => LightModel::Point {
                position: position@,
                intensity: *intensity,
            },
            Light::Directional { direction, irradiance } => LightModel::Directional {
                direction: direction@,
                irradiance: *irradiance,
            },
            Light::Spot { position, direction, intensity, cutoff_angle, beam_width } =>
                LightModel::Spot {
                position: position@,
                direction: direction@,
                intensity: *intensity,
                cutoff_angle: *cutoff_angle,
                beam_width: *beam_width,
            },
        }
    }
}

/// Whether a vector of this length has a direction.
pub open spec fn points_somewhere(length: u64) -> bool {
    below(ZERO, length) && is_finite(length)
}

/// Whether a vector of this length has a direction: it is longer than nothing, and finite.
pub fn direction_fits(length: u64) -> (r: bool)
    ensures
        r == points_somewhere(length),
{
    less(ZERO, length) && finite(length)
}

/// How the brightness of a light is called.
pub open spec fn brightness_name(n: Node) -> Seq<char> {
    if typ(n) == "directional"@ {
        "irradiance"@
    } else {
        "intensity"@
    }
}

/// The brightness of a light as it is written.
pub open spec fn brightness_text(n: Node) -> ColorModel {
    color_or(
        if typ(n) == "directional"@ {
            color_or_float_of(n, "irradiance")
        } else {
            color_or_float_of(n, "intensity")
        },
        "1"@,
    )
}

pub open spec fn direction_text(n: Node) -> Text3 {
    triple_or(triple_of(n, "vector"@, "direction"), ("0"@, "-1"@, "0"@))
}

/// Whether a light shines somewhere: any but a point needs a direction.
pub open spec fn shines(n: Node, m: Readings) -> bool {
    typ(n) == "point"@ || points_somewhere((m.length)(direction_text(n)))
}

pub open spec fn cutoff_reading(n: Node, m: Readings) -> u64 {
    (m.number)(text_or(float_of(n, "cutoff_angle"), "20"@))
}

/// The beam width that is asked for: three quarters of the cutoff angle if none is written.
pub open spec fn beam_reading(n: Node, m: Readings) -> u64 {
    match float_of(n, "beam_width") {
        Some(b) => (m.number)(b),
        None => (m.three_quarters)(usable_cutoff(cutoff_reading(n, m))),
    }
}

/// The light that an element stands for: any type but the other two is a spot light. Negative
/// parts of its brightness are dropped, its angles are moved into their ranges, and without a
/// direction where it needs one there is no light.
pub open spec fn light_of(n: Node, m: Readings) -> Option<LightModel> {
    let position = triple_or(triple_of(n, "point"@, "position"), ("0"@, "0"@, "0"@));
    let value = all_not_negative((m.color)(brightness_text(n)));
    if !shines(n, m) {
        None
    } else if typ(n) == "point"@ {
        Some(LightModel::Point { position, intensity: value })
    } else if typ(n) == "directional"@ {
        Some(LightModel::Directional { direction: direction_text(n), irradiance: value })
    } else {
        let cutoff_angle = usable_cutoff(cutoff_reading(n, m));
        Some(
            LightModel::Spot {
                position,
                direction: direction_text(n),
                intensity: value,
                cutoff_angle,
                beam_width: usable_beam(beam_reading(n, m), cutoff_angle),
            },
        )
    }
}

/// What reading the brightness of a light warns of.
pub open spec fn brightness_warnings(n: Node, m: Readings) -> Seq<Seq<char>> {
    if any_negative((m.color)(brightness_text(n))) {
        seq![
            typ(n) + " emitter "@ + brightness_name(n)
                + " must be >= 0; negative components set to 0"@,
        ]
    } else {
        Seq::empty()
    }
}

/// What reading the angles of a spot light warns of.
pub open spec fn angle_warnings(n: Node, m: Readings) -> Seq<Seq<char>> {
    let cutoff = cutoff_reading(n, m);
    let beam = beam_reading(n, m);
    (if cutoff_fits(cutoff) {
        Seq::<Seq<char>>::empty()
    } else {
        seq!["spot cutoff_angle "@ + (m.show)(cutoff) + " is outside (0, 90]; using 20"@]
    }) + (if beam_fits(beam, usable_cutoff(cutoff)) {
        Seq::<Seq<char>>::empty()
    } else {
        seq![
            "spot beam_width "@ + (m.show)(beam)
                + " must be within (0, cutoff_angle]; using cutoff_angle"@,
        ]
    })
}

/// What reading a light warns of.
pub open spec fn light_warnings(n: Node, m: Readings) -> Seq<Seq<char>> {
    brightness_warnings(n, m) + (if !shines(n, m) {
        seq![typ(n) + " emitter direction is zero or not finite; light ignored"@]
    } else if typ(n) == "point"@ || typ(n) == "directional"@ {
        Seq::<Seq<char>>::empty()
    } else {
        angle_warnings(n, m)
    })
}

pub open spec fn cutoff_fits(c: u64) -> bool {
    below(ZERO, c) && at_most(c, NINETY)
}

/// The cutoff angle that is used, in degrees.
pub open spec fn usable_cutoff(c: u64) -> u64 {
    if cutoff_fits(c) {
        c
    } else {
        TWENTY
    }
}

/// The cutoff angle of a spot light in degrees, more than zero and at most a right angle, and
/// whether it was so.
pub fn check_cutoff(c: u64) -> (r: (u64, bool))
    ensures
        r == (usable_cutoff(c), cutoff_fits(c)),
{
    if less(ZERO, c) && less_or_equal(c, NINETY) {
        (c, true)
    } else {
        (TWENTY, false)
    }
}

pub open spec fn beam_fits(b: u64, cutoff: u64) -> bool {
    below(ZERO, b) && at_most(b, cutoff)
}

/// The beam width that is used, in degrees.
pub open spec fn usable_beam(b: u64, cutoff: u64) -> u64 {
    if beam_fits(b, cutoff) {
        b
    } else {
        cutoff
    }
}

/// The beam width of a spot light, more than zero and at most its cutoff angle, and whether it was
/// so.
pub fn check_beam(b: u64, cutoff: u64) -> (r: (u64, bool))
    ensures
        r == (usable_beam(b, cutoff), beam_fits(b, cutoff)),
{
    if less(ZERO, b) && less_or_equal(b, cutoff) {
        (b, true)
    } else {
        (cutoff, false)
    }
}

/// The angles of a spot light.
fn spot_angles<
    N: Fn(&str) -> u64,
    C: Fn(&ColorText) -> Bits3,
    L: Fn(&Triple) -> u64,
    Q: Fn(u64) -> u64,
    S: Fn(u64) -> String,
>(el: &Element, gauge: &Gauge<N, C, L, Q, S>, warnings: &mut Vec<String>) -> (r: (u64, u64))
    requires
        answers(*gauge),
    ensures
        forall|m: Readings| #[trigger]
            reads(*gauge, m) ==> {
                let cutoff = usable_cutoff(cutoff_reading(el.node(), m));
                &&& r == (cutoff, usable_beam(beam_reading(el.node(), m), cutoff))
                &&& strings(final(warnings)@) == strings(old(warnings)@) + angle_warnings(
                    el.node(),
                    m,
                )
            },
{
    let ghost start = strings(warnings@);
    let ghost none = Seq::<Seq<char>>::empty();
    assert(none + none =~= none);
    let text = text_else(el.float("cutoff_angle"), "20");
    let asked: u64 = (gauge.number)(text.as_str());
    let (cutoff, fits) = check_cutoff(asked);
    let ghost mut first = none;
    if !fits {
        let shown = (gauge.show)(asked);
        warn3(warnings, "spot cutoff_angle ", shown.as_str(), " is outside (0, 90]; using 20");
        proof {
            first = seq!["spot cutoff_angle "@ + shown@ + " is outside (0, 90]; using 20"@];
        }
    }
    assert(strings(warnings@) =~= start + first);
    let given: u64 = match el.float("beam_width") {
        Some(b) => (gauge.number)(b.as_str()),
        None => (gauge.three_quarters)(cutoff),
    };
    let (beam, fits) = check_beam(given, cutoff);
    let ghost mut second = none;
    if !fits {
        let shown = (gauge.show)(given);
        warn3(
            warnings,
            "spot beam_width ",
            shown.as_str(),
            " must be within (0, cutoff_angle]; using cutoff_angle",
        );
        proof {
            second = seq![
                "spot beam_width "@ + shown@
                    + " must be within (0, cutoff_angle]; using cutoff_angle"@,
            ];
        }
    }
    assert(strings(warnings@) =~= start + (first + second));
    (cutoff, beam)
}

/// Reads a light without extent, if it is one that can be used.
pub fn parse_delta_emitter<
    N: Fn(&str) -> u64,
    C: Fn(&ColorText) -> Bits3,
    L: Fn(&Triple) -> u64,
    Q: Fn(u64) -> u64,
    S: Fn(u64) -> String,
>(el: &Element, gauge: &Gauge<N, C, L, Q, S>, warnings: &mut Vec<String>) -> (r: Option<Light>)
    requires
        answers(*gauge),
    ensures
        forall|m: Readings| #[trigger]
            reads(*gauge, m) ==> strings(final(warnings)@) == strings(old(warnings)@)
                + light_warnings(el.node(), m) && match r {
                Some(l) => light_of(el.node(), m) == Some(l@),
                None => light_of(el.node(), m) is None,
            },
{
    let ghost start = strings(warnings@);
    let ghost none = Seq::<Seq<char>>::empty();
    let directional: bool = el.is_typ("directional");
    let name = if directional {
        "irradiance"
    } else {
        "intensity"
    };
    let text = color_else(
        if directional {
            el.color_or_float("irradiance")
        } else {
            el.color_or_float("intensity")
        },
        "1",
    );
    let (value, negative) = drop_negative((gauge.color)(&text));
    let ghost mut first = none;
    if negative {
        let what = joined(el.typ(), " emitter ");
        warn3(
            warnings,
            what.as_str(),
            name,
            " must be >= 0; negative components set to 0",
        );
        proof {
            first = seq![
                typ(el.node()) + " emitter "@ + name@
                    + " must be >= 0; negative components set to 0"@,
            ];
        }
    }
    assert(strings(warnings@) =~= start + first);
    assert(first + none =~= first);
    let position = triple_else(el.point("position"), "0", "0", "0");
    if el.is_typ("point") {
        return Some(Light::Point { position, intensity: value });
    }
    let direction = triple_else(el.vector("direction"), "0", "-1", "0");
    if !direction_fits((gauge.length)(&direction)) {
        warn3(
            warnings,
            el.typ(),
            " emitter direction is zero or not finite; light ignored",
            "",
        );
        proof {
            reveal_strlit("");
            let said = typ(el.node()) + " emitter direction is zero or not finite; light ignored"@;
            assert(said + ""@ =~= said);
            assert(strings(warnings@) =~= start + (first + seq![said]));
        }
        return None;
    }
    if directional {
        return Some(Light::Directional { direction, irradiance: value });
    }
    let ghost before = strings(warnings@);
    let (cutoff_angle, beam_width) = spot_angles(el, gauge, warnings);
    proof {
        assert forall|m: Readings| #[trigger] reads(*gauge, m) implies strings(warnings@) == start
            + light_warnings(el.node(), m) by {
            assert(strings(warnings@) =~= start + (first + angle_warnings(el.node(), m)));
        }
    }
    Some(Light::Spot { position, direction, intensity: value, cutoff_angle, beam_width })
}

/// Whatever was written, a light that is used has no negative brightness, and the angles of a spot
/// light are more than zero, the beam no wider than the cutoff, which is at most a right angle.
pub proof fn lights_are_usable(n: Node, m: Readings)
    ensures
        match light_of(n, m) {
            None => typ(n) != "point"@ && !points_somewhere((m.length)(direction_text(n))),
            Some(LightModel::Point { intensity, .. }) => !any_negative(intensity),
            Some(LightModel::Directional { direction, irradiance }) => !any_negative(irradiance)
                && points_somewhere((m.length)(direction)),
            Some(LightModel::Spot { direction, intensity, cutoff_angle, beam_width, .. }) =>
                !any_negative(intensity) && points_somewhere((m.length)(direction)) && cutoff_fits(
                    cutoff_angle,
                ) && beam_fits(beam_width, cutoff_angle),
        },
{
}

/// What surrounds a scene, as it is written.
pub enum EnvironmentText {
    /// An image.
    Image { path: String, scale: String },
    /// One colour.
    Constant { radiance: ColorText, scale: String },
}

pub enum EnvironmentModel {
    Image { path: Seq<char>, scale: Seq<char> },
    Constant { radiance: ColorModel, scale: Seq<char> },
}

impl View for EnvironmentText {
    type V = EnvironmentModel;

    open spec fn view(&self) -> EnvironmentModel {
        match self {
            EnvironmentText::Image { path, scale } => EnvironmentModel::Image {
                path: path@,
                scale: scale@,
            },
            EnvironmentText::Constant { radiance, scale } => EnvironmentModel::Constant {
                radiance: radiance@,
                scale: scale@,
            },
        }
    }
}

/// The environment of a scene that says nothing of it.
pub open spec fn darkness() -> EnvironmentModel {
    EnvironmentModel::Constant {
        radiance: ColorModel { srgb: false, v: ("0"@, "0"@, "0"@) },
        scale: "1"@,
    }
}

/// The environment of a scene that says nothing of it: black.
pub fn black_environment() -> (r: EnvironmentText)
    ensures
        r@ == darkness(),
{
    EnvironmentText::Constant {
        radiance: ColorText {
            srgb: false,
            v: Triple { x: copied("0"), y: copied("0"), z: copied("0") },
        },
        scale: copied("1"),
    }
}

/// The environment that an element stands for, if its image can be read as one.
pub open spec fn environment_of(n: Node, base: Seq<char>, images: Seq<ImageModel>) -> Option<
    EnvironmentModel,
> {
    let scale = text_or(float_of(n, "scale"), "1"@);
    if typ(n) == "envmap"@ {
        match prop_value(n, "string"@, "filename") {
            None => None,
            Some(f) => if environment_error(images, path_in(base, f)) is None {
                Some(EnvironmentModel::Image { path: path_in(base, f), scale })
            } else {
                None
            },
        }
    } else if typ(n) == "constant"@ {
        Some(
            EnvironmentModel::Constant {
                radiance: color_or(color_of(n, "radiance"), "1"@),
                scale,
            },
        )
    } else {
        None
    }
}

/// What reading an environment warns of.
pub open spec fn environment_warnings(n: Node, base: Seq<char>, images: Seq<ImageModel>) -> Seq<
    Seq<char>,
> {
    (if child(n, "transform"@, NameRule::Any) is Some {
        seq!["envmap to_world rotation is unsupported; ignored"@]
    } else {
        Seq::<Seq<char>>::empty()
    }) + (if typ(n) == "envmap"@ {
        match prop_value(n, "string"@, "filename") {
            None => Seq::<Seq<char>>::empty(),
            Some(f) => match environment_error(images, path_in(base, f)) {
                None => Seq::<Seq<char>>::empty(),
                Some(e) => seq![load_failed("failed to load envmap '"@, path_in(base, f), e)],
            },
        }
    } else if typ(n) == "constant"@ {
        Seq::<Seq<char>>::empty()
    } else {
        seq!["unsupported scene emitter type '"@ + typ(n) + "', ignored"@]
    })
}

/// Reads what surrounds a scene.
pub fn parse_scene_emitter(
    el: &Element,
    base_dir: &str,
    images: &Vec<Image>,
    warnings: &mut Vec<String>,
) -> (r: Option<EnvironmentText>)
    ensures
        match r {
            Some(e) => environment_of(el.node(), base_dir@, image_models(images@)) == Some(e@),
            None => environment_of(el.node(), base_dir@, image_models(images@)) is None,
        },
        strings(final(warnings)@) == strings(old(warnings)@) + environment_warnings(
            el.node(),
            base_dir@,
            image_models(images@),
        ),
{
    let ghost start = strings(warnings@);
    let ghost want = environment_warnings(el.node(), base_dir@, image_models(images@));
    if el.child_tag("transform").is_some() {
        warn1(warnings, "envmap to_world rotation is unsupported; ignored");
    }
    let scale = text_else(el.float("scale"), "1");
    if el.is_typ("envmap") {
        let path = match el.string("filename") {
            None => {
                assert(strings(warnings@) =~= start + want);
                return None;
            },
            Some(f) => resolve_path(base_dir, f),
        };
        match environment_error_of(images, path.as_str()) {
            None => {
                assert(strings(warnings@) =~= start + want);
                Some(EnvironmentText::Image { path, scale })
            },
            Some(e) => {
                warn5(
                    warnings,
                    "failed to load envmap '",
                    path.as_str(),
                    "': ",
                    e.as_str(),
                    "; ignored",
                );
                assert(strings(warnings@) =~= start + want);
                None
            },
        }
    } else if el.is_typ("constant") {
        assert(strings(warnings@) =~= start + want);
        Some(
            EnvironmentText::Constant {
                radiance: color_else(el.color("radiance"), "1"),
                scale,
            },
        )
    } else {
        warn3(warnings, "unsupported scene emitter type '", el.typ(), "', ignored");
        assert(strings(warnings@) =~= start + want);
        None
    }
}

/// Where a camera stands, what it looks at and which way is up.
pub struct Pose {
    pub origin: Triple,
    pub target: Triple,
    pub up: Triple,
}

pub struct PoseModel {
    pub origin: Text3,
    pub target: Text3,
    pub up: Text3,
}

impl View for Pose {
    type V = PoseModel;

    open spec fn view(&self) -> PoseModel {
        PoseModel { origin: self.origin@, target: self.target@, up: self.up@ }
    }
}

/// Three numbers in an attribute.
pub open spec fn attr3(n: Node, key: Seq<char>) -> Option<Text3> {
    match attr(n, key) {
        None => None,
        Some(s) => vec3_of(s),
    }
}

/// The pose that an element stands for: without `up`, the y axis is up.
pub open spec fn lookat_of(n: Node) -> Option<PoseModel> {
    match (attr3(n, "origin"@), attr3(n, "target"@)) {
        (Some(origin), Some(target)) => Some(
            PoseModel { origin, target, up: triple_or(attr3(n, "up"@), ("0"@, "1"@, "0"@)) },
        ),
        _ => None,
    }
}

fn parse_attr3(el: &Element, key: &str) -> (r: Option<Triple>)
    ensures
        opt_triple(r) == attr3(el.node(), key@),
{
    match el.attr(key) {
        None => None,
        Some(s) => parse_vec3(s),
    }
}

/// Reads a pose.
pub fn parse_lookat(el: &Element) -> (r: Option<Pose>)
    ensures
        match r {
            Some(p) => lookat_of(el.node()) == Some(p@),
            None => lookat_of(el.node()) is None,
        },
{
    match (parse_attr3(el, "origin"), parse_attr3(el, "target")) {
        (Some(origin), Some(target)) => Some(
            Pose { origin, target, up: triple_else(parse_attr3(el, "up"), "0", "1", "0") },
        ),
        _ => None,
    }
}

/// A perspective camera, as it is written.
pub struct SensorText {
    /// Field of view in degrees.
    pub fov: String,
    /// Whether the field of view is the vertical one.
    pub fov_is_vertical: bool,
    pub pose: Pose,
    pub aperture_radius: String,
    /// The distance to the target if it is missing.
    pub focus_distance: Option<String>,
    /// Between 0 and 1.
    pub shutter_open: u64,
    /// No earlier than it opens, and at most 1.
    pub shutter_close: u64,
    /// The pose when the shutter closes, if the camera moves.
    pub end_pose: Option<Pose>,
}

pub struct SensorModel {
    pub fov: Seq<char>,
    pub fov_is_vertical: bool,
    pub pose: PoseModel,
    pub aperture_radius: Seq<char>,
    pub focus_distance: Option<Seq<char>>,
    pub shutter_open: u64,
    pub shutter_close: u64,
    pub end_pose: Option<PoseModel>,
}

impl View for SensorText {
    type V = SensorModel;

    open spec fn view(&self) -> SensorModel {
        SensorModel {
            fov: self.fov@,
            fov_is_vertical: self.fov_is_vertical,
            pose: self.pose@,
            aperture_radius: self.aperture_radius@,
            focus_distance: opt_text(self.focus_distance),
            shutter_open: self.shutter_open,
            shutter_close: self.shutter_close,
            end_pose: match self.end_pose {
                Some(p) => Some(p@),
                None => None,
            },
        }
    }
}

/// The pose inside the first transformation whose name fits.
pub open spec fn pose_in(n: Node, rule: NameRule) -> Option<PoseModel> {
    match child(n, "transform"@, rule) {
        None => None,
        Some(t) => match child(t, "lookat"@, NameRule::Any) {
            None => None,
            Some(l) => lookat_of(l),
        },
    }
}

pub open spec fn default_pose() -> PoseModel {
    PoseModel {
        origin: ("0"@, "0"@, "4"@),
        target: ("0"@, "0"@, "0"@),
        up: ("0"@, "1"@, "0"@),
    }
}

/// The times of the shutter as they are written.
pub open spec fn written_times(n: Node, m: Readings) -> (u64, u64) {
    (
        (m.number)(text_or(float_of(n, "shutter_open"), "0"@)),
        (m.number)(text_or(float_of(n, "shutter_close"), "1"@)),
    )
}

/// The camera that an element stands for.
pub open spec fn sensor_of(n: Node, m: Readings) -> SensorModel {
    let times = usable_times(written_times(n, m).0, written_times(n, m).1);
    SensorModel {
        fov: text_or(float_of(n, "fov"), "40"@),
        fov_is_vertical: prop_value(n, "string"@, "fov_axis") == Some("y"@),
        pose: match pose_in(n, NameRule::MissingOr("to_world")) {
            Some(p) => p,
            None => default_pose(),
        },
        aperture_radius: text_or(float_of(n, "aperture_radius"), "0"@),
        focus_distance: float_of(n, "focus_distance"),
        shutter_open: times.0,
        shutter_close: times.1,
        end_pose: pose_in(n, NameRule::Is("to_world_end")),
    }
}

/// What reading the end of the motion of a camera warns of.
pub open spec fn end_pose_warnings(n: Node) -> Seq<Seq<char>> {
    if child(n, "transform"@, NameRule::Is("to_world_end")) is Some && pose_in(
        n,
        NameRule::Is("to_world_end"),
    ) is None {
        seq!["sensor to_world_end needs a <lookat>; the camera stays static"@]
    } else {
        Seq::empty()
    }
}

/// What reading a camera warns of: the times of its shutter, and an end of its motion that is no
/// pose.
pub open spec fn sensor_warnings(n: Node, m: Readings) -> Seq<Seq<char>> {
    shutter_warnings(written_times(n, m).0, written_times(n, m).1, m) + end_pose_warnings(n)
}

fn pose_under(el: &Element, rule: NameRule) -> (r: Option<Pose>)
    ensures
        match r {
            Some(p) => pose_in(el.node(), rule) == Some(p@),
            None => pose_in(el.node(), rule) is None,
        },
{
    match el.pick("transform", rule) {
        None => None,
        Some(t) => match t.child_tag("lookat") {
            None => None,
            Some(l) => parse_lookat(l),
        },
    }
}

/// The pose of a camera that has none.
pub fn fallback_pose() -> (r: Pose)
    ensures
        r@ == default_pose(),
{
    Pose {
        origin: Triple { x: copied("0"), y: copied("0"), z: copied("4") },
        target: triple("0"),
        up: Triple { x: copied("0"), y: copied("1"), z: copied("0") },
    }
}

/// Reads a camera.
pub fn parse_sensor<
    N: Fn(&str) -> u64,
    C: Fn(&ColorText) -> Bits3,
    L: Fn(&Triple) -> u64,
    Q: Fn(u64) -> u64,
    S: Fn(u64) -> String,
>(el: &Element, gauge: &Gauge<N, C, L, Q, S>, warnings: &mut Vec<String>) -> (r: SensorText)
    requires
        answers(*gauge),
    ensures
        forall|m: Readings| #[trigger]
            reads(*gauge, m) ==> r@ == sensor_of(el.node(), m) && strings(final(warnings)@)
                == strings(old(warnings)@) + sensor_warnings(el.node(), m),
{
    let ghost start = strings(warnings@);
    let fov_is_vertical: bool = match el.string("fov_axis") {
        Some(a) => same_str(a, "y"),
        None => false,
    };
    let pose = match pose_under(el, NameRule::MissingOr("to_world")) {
        Some(p) => p,
        None => fallback_pose(),
    };
    let open_text = text_else(el.float("shutter_open"), "0");
    let close_text = text_else(el.float("shutter_close"), "1");
    let open: u64 = (gauge.number)(open_text.as_str());
    let close: u64 = (gauge.number)(close_text.as_str());
    let (shutter_open, shutter_close) = read_shutter(open, close, gauge, warnings);
    let ghost middle = strings(warnings@);
    let end_pose = pose_under(el, NameRule::Is("to_world_end"));
    if end_pose.is_none() && el.pick("transform", NameRule::Is("to_world_end")).is_some() {
        warn1(warnings, "sensor to_world_end needs a <lookat>; the camera stays static");
    }
    proof {
        assert(strings(warnings@) =~= middle + end_pose_warnings(el.node()));
        assert forall|m: Readings| #[trigger] reads(*gauge, m) implies strings(warnings@) == start
            + sensor_warnings(el.node(), m) by {
            assert(strings(warnings@) =~= start + sensor_warnings(el.node(), m));
        }
    }
    SensorText {
        fov: text_else(el.float("fov"), "40"),
        fov_is_vertical,
        pose,
        aperture_radius: text_else(el.float("aperture_radius"), "0"),
        focus_distance: el.float("focus_distance"),
        shutter_open,
        shutter_close,
        end_pose,
    }
}

/// The times that a shutter opens and closes: finite ones as they are, else 0 and 1.
pub open spec fn finite_times(open: u64, close: u64) -> (u64, u64) {
    if is_finite(open) && is_finite(close) {
        (open, close)
    } else {
        (ZERO, ONE)
    }
}

/// The earlier time first.
pub open spec fn ordered_times(t: (u64, u64)) -> (u64, u64) {
    if below(t.1, t.0) {
        (t.1, t.0)
    } else {
        t
    }
}

pub open spec fn times_fit(t: (u64, u64)) -> bool {
    !below(t.0, ZERO) && !below(ONE, t.1)
}

pub open spec fn clamped_times(t: (u64, u64)) -> (u64, u64) {
    if times_fit(t) {
        t
    } else {
        (between(ZERO, t.0, ONE), between(ZERO, t.1, ONE))
    }
}

/// The times that a shutter opens and closes, in order and between 0 and 1.
pub open spec fn usable_times(open: u64, close: u64) -> (u64, u64) {
    clamped_times(ordered_times(finite_times(open, close)))
}

/// What the times of a shutter are warned of.
pub open spec fn shutter_warnings(open: u64, close: u64, m: Readings) -> Seq<Seq<char>> {
    let f = finite_times(open, close);
    let o = ordered_times(f);
    (if is_finite(open) && is_finite(close) {
        Seq::<Seq<char>>::empty()
    } else {
        seq!["shutter_open / shutter_close must be finite; using 0 and 1"@]
    }) + (if below(f.1, f.0) {
        seq![
            "shutter_open "@ + (m.show)(f.0) + " > shutter_close "@ + (m.show)(f.1) + "; swapped"@,
        ]
    } else {
        Seq::<Seq<char>>::empty()
    }) + (if times_fit(o) {
        Seq::<Seq<char>>::empty()
    } else {
        seq![
            "shutter ["@ + (m.show)(o.0) + ", "@ + (m.show)(o.1)
                + "] is outside [0, 1]; clamped (motion keyframes are at time 0 and 1)"@,
        ]
    })
}

/// The times that a shutter opens and closes: motion is known between 0 and 1 only.
fn read_shutter<
    N: Fn(&str) -> u64,
    C: Fn(&ColorText) -> Bits3,
    L: Fn(&Triple) -> u64,
    Q: Fn(u64) -> u64,
    S: Fn(u64) -> String,
>(open: u64, close: u64, gauge: &Gauge<N, C, L, Q, S>, warnings: &mut Vec<String>) -> (r: (u64, u64))
    requires
        answers(*gauge),
    ensures
        r == usable_times(open, close),
        forall|m: Readings| #[trigger]
            reads(*gauge, m) ==> strings(final(warnings)@) == strings(old(warnings)@)
                + shutter_warnings(open, close, m),
{
    let ghost start = strings(warnings@);
    let ghost none = Seq::<Seq<char>>::empty();
    let mut a: u64 = open;
    let mut b: u64 = close;
    let ghost mut first = none;
    if !(finite(a) && finite(b)) {
        warn1(warnings, "shutter_open / shutter_close must be finite; using 0 and 1");
        proof {
            first = seq!["shutter_open / shutter_close must be finite; using 0 and 1"@];
        }
        a = ZERO;
        b = ONE;
    }
    assert(strings(warnings@) =~= start + first);
    let ghost mut second = none;
    if less(b, a) {
        let x = (gauge.show)(a);
        let y = (gauge.show)(b);
        warn5(
            warnings,
            "shutter_open ",
            x.as_str(),
            " > shutter_close ",
            y.as_str(),
            "; swapped",
        );
        proof {
            second = seq!["shutter_open "@ + x@ + " > shutter_close "@ + y@ + "; swapped"@];
        }
        let t: u64 = a;
        a = b;
        b = t;
    }
    assert(strings(warnings@) =~= start + (first + second));
    let ghost mut third = none;
    if less(a, ZERO) || less(ONE, b) {
        let x = (gauge.show)(a);
        let y = (gauge.show)(b);
        warn5(
            warnings,
            "shutter [",
            x.as_str(),
            ", ",
            y.as_str(),
            "] is outside [0, 1]; clamped (motion keyframes are at time 0 and 1)",
        );
        proof {
            third = seq![
                "shutter ["@ + x@ + ", "@ + y@
                    + "] is outside [0, 1]; clamped (motion keyframes are at time 0 and 1)"@,
            ];
        }
        a = clamp(ZERO, a, ONE);
        b = clamp(ZERO, b, ONE);
    }
    assert(strings(warnings@) =~= start + (first + second + third));
    (a, b)
}

/// Whatever was written, the shutter opens no later than it closes, and both lie between 0 and 1;
/// times that were right are left alone.
pub proof fn shutter_is_in_order(open: u64, close: u64)
    ensures
        ({
            let t = usable_times(open, close);
            at_most(ZERO, t.0) && at_most(t.0, t.1) && at_most(t.1, ONE)
        }),
        is_finite(open) && is_finite(close) && !below(close, open) && times_fit((open, close))
            ==> usable_times(open, close) == (open, close),
{
}

} // verus!
