//! Light paths: how long they get, where lights are sampled, and what counts.

use crate::integrator::{
    is_traced, scattered, survival_of, vertex_for, Count, Met, PathLimits, PathState,
};
use crate::material::{albedo_of, is_sharp, lobe_of, scatters_sharply, Lobe, Material};
use crate::reals::{at_most, below, is_nan};
use vstd::prelude::*;

verus! {

/// A path goes on as long as the limit lets it: from a surface or a particle that is met after
/// `bounce` scatterings exactly if the path is then no longer than the limit. From there lights
/// are sampled too, but for surfaces that scatter in single directions only.
pub proof fn paths_are_complete(
    limits: PathLimits,
    s: PathState,
    met: Met,
    has_environment: bool,
    has_strata: bool,
)
    requires
        met is Surface || met is Particle,
    ensures
        ({
            let v = vertex_for(limits, s, met, has_environment, has_strata);
            let sharp = met == Met::Surface { delta: true };
            &&& v.extend <==> s.bounce + 2 <= limits.max_depth
            &&& v.sample_lights <==> s.bounce + 2 <= limits.max_depth && !sharp
            &&& v.stratified <==> v.sample_lights && s.bounce == 0 && has_strata
            &&& v.roulette <==> v.extend && s.bounce + 1 >= limits.rr_depth
            &&& v.count == Count::Nothing
        }),
{
}

/// Light counts where a path meets it, and the path ends there. It is weighted against the
/// sampling of lights exactly if lights were sampled at the vertex before.
pub proof fn met_light_counts(
    limits: PathLimits,
    s: PathState,
    has_environment: bool,
    has_strata: bool,
)
    ensures
        ({
            let light = vertex_for(limits, s, Met::Light, has_environment, has_strata);
            let sky = vertex_for(limits, s, Met::Nothing, has_environment, has_strata);
            &&& light.count == Count::Emission { weighted: s.last_non_delta }
            &&& sky.count == Count::Background { weighted: s.last_non_delta && has_environment }
            &&& !light.extend && !light.sample_lights && !light.roulette && !light.stratified
            &&& !sky.extend && !sky.sample_lights && !sky.roulette && !sky.stratified
        }),
{
}

/// A path that has been scattered as `kinds` says, in single directions or not, from the eye on.
pub open spec fn path_after(kinds: Seq<bool>) -> PathState
    decreases kinds.len(),
{
    if kinds.len() == 0 {
        PathState { bounce: 0, last_non_delta: false }
    } else {
        scattered(path_after(kinds.drop_last()), kinds.last())
    }
}

/// Scatterings are counted one by one, and what is remembered of them is the last: the ray after
/// `n` scatterings is traced exactly if `n` is below the limit, whatever the surfaces were.
pub proof fn paths_run_their_length(limits: PathLimits, kinds: Seq<bool>)
    requires
        kinds.len() <= usize::MAX,
    ensures
        path_after(kinds).bounce == kinds.len(),
        path_after(kinds).last_non_delta <==> kinds.len() > 0 && !kinds.last(),
        is_traced(limits, path_after(kinds)) <==> kinds.len() < limits.max_depth,
    decreases kinds.len(),
{
    if kinds.len() > 0 {
        paths_run_their_length(limits, kinds.drop_last());
    }
}

/// The probability to go on is the one asked for where that lies between a twentieth and
/// nineteen twentieths, and the nearer of these two where it does not.
pub proof fn survival_is_as_asked(p: u64)
    ensures
        at_most(0x3FA9_9999_9999_999A, p) && at_most(p, 0x3FEE_6666_6666_6666) ==> survival_of(p) == p,
        below(p, 0x3FA9_9999_9999_999A) ==> survival_of(p) == 0x3FA9_9999_9999_999A,
        below(0x3FEE_6666_6666_6666, p) || is_nan(p) ==> survival_of(p) == 0x3FEE_6666_6666_6666,
{
}

/// How each material scatters: diffusely, glossily, as a mirror, or through the surface, which
/// only glass does, and only where it reflects neither by angle nor by chance.
pub proof fn materials_scatter_in_their_way(m: Material, total: bool, chance: bool)
    ensures
        lobe_of(m, total, chance) == Some(Lobe::Diffuse) <==> m is Lambert || m is Subsurface,
        lobe_of(m, total, chance) == Some(Lobe::Glossy) <==> m is Ggx,
        lobe_of(m, total, chance) == Some(Lobe::Refraction) <==> m is Dielectric && !total && !chance,
        lobe_of(m, total, chance) == Some(Lobe::Mirror) <==> m is Metal || (m is Dielectric && (total
            || chance)),
        lobe_of(m, total, chance) is None <==> m is DiffuseLight,
        is_sharp(Lobe::Mirror) && is_sharp(Lobe::Refraction),
        !is_sharp(Lobe::Diffuse) && !is_sharp(Lobe::Glossy),
        scatters_sharply(m) <==> m is Metal || m is Dielectric,
        m matches Material::Lambert { albedo } ==> albedo_of(m) == Some(albedo),
        m matches Material::Metal { albedo } ==> albedo_of(m) == Some(albedo),
        m matches Material::Ggx { albedo, .. } ==> albedo_of(m) == Some(albedo),
        m matches Material::Subsurface { albedo } ==> albedo_of(m) == Some(albedo),
        m is Dielectric || m is DiffuseLight ==> albedo_of(m) is None,
{
}

} // verus!
