//! Materials, and the way in which they scatter.
//!
//! Colours and numbers are carried as their bits.

use crate::reals::Bits3;
use vstd::prelude::*;

verus! {

/// A material.
#[derive(Clone, Copy, Debug, PartialEq, Eq)]
pub enum Material {
    /// Perfectly diffuse.
    Lambert { albedo: Bits3 },
    /// A perfect mirror.
    Metal { albedo: Bits3 },
    /// Clear, with refraction and absorption.
    Dielectric { ior: u64, absorption: Bits3 },
    /// Microfacets of this roughness.
    Ggx { albedo: Bits3, alpha: u64 },
    /// Simplified subsurface scattering.
    Subsurface { albedo: Bits3 },
    /// A light.
    DiffuseLight { emit: Bits3 },
}

/// The way in which a ray is scattered.
#[derive(Clone, Copy, Debug, PartialEq, Eq, Structural)]
pub enum Lobe {
    Diffuse,
    Glossy,
    Mirror,
    Refraction,
}

/// The reflectance of a material that has one.
pub open spec fn albedo_of(m: Material) -> Option<Bits3> {
    match m {
        Material::Lambert { albedo } => Some(albedo),
        Material::Metal { albedo } => Some(albedo),
        Material::Ggx { albedo, .. } => Some(albedo),
        Material::Subsurface { albedo } => Some(albedo),
        Material::Dielectric { .. } => None,
        Material::DiffuseLight { .. } => None,
    }
}

/// Whether a material scatters in single directions only.
pub open spec fn scatters_sharply(m: Material) -> bool {
    m is Metal || m is Dielectric
}

/// Whether a way of scattering knows single directions only.
pub open spec fn is_sharp(l: Lobe) -> bool {
    l is Mirror || l is Refraction
}

/// The way in which a material scatters a ray: clear material reflects what cannot be refracted,
/// and what chance has it reflect.
pub open spec fn lobe_of(m: Material, total_reflection: bool, chance_reflects: bool) -> Option<Lobe> {
    match m {
        Material::Lambert { .. } => Some(Lobe::Diffuse),
        Material::Subsurface { .. } => Some(Lobe::Diffuse),
        Material::Metal { .. } => Some(Lobe::Mirror),
        Material::Ggx { .. } => Some(Lobe::Glossy),
        Material::Dielectric { .. } => if total_reflection || chance_reflects {
            Some(Lobe::Mirror)
        } else {
            Some(Lobe::Refraction)
        },
        Material::DiffuseLight { .. } => None,
    }
}

impl Material {
    /// The reflectance of a material that has one.
    pub fn albedo(&self) -> (r: Option<Bits3>)
        ensures
            r == albedo_of(*self),
    {
        match *self {
            Material::Lambert { albedo } => Some(albedo),
            Material::Metal { albedo } => Some(albedo),
            Material::Ggx { albedo, .. } => Some(albedo),
            Material::Subsurface { albedo } => Some(albedo),
            Material::Dielectric { .. } => None,
            Material::DiffuseLight { .. } => None,
        }
    }

    /// The material with another reflectance; one that has none stays as it is.
    pub fn with_albedo(self, albedo: Bits3) -> (r: Self)
        ensures
            r == (match self {
                Material::Lambert { .. } => Material::Lambert { albedo },
                Material::Metal { .. } => Material::Metal { albedo },
                Material::Ggx { alpha, .. } => Material::Ggx { albedo, alpha },
                Material::Subsurface { .. } => Material::Subsurface { albedo },
                _ => self,
            }),
    {
        match self {
            Material::Lambert { .. } => Material::Lambert { albedo },
            Material::Metal { .. } => Material::Metal { albedo },
            Material::Ggx { alpha, .. } => Material::Ggx { albedo, alpha },
            Material::Subsurface { .. } => Material::Subsurface { albedo },
            other => other,
        }
    }

    /// The material with another roughness; one that has none stays as it is.
    pub fn with_alpha(self, alpha: u64) -> (r: Self)
        ensures
            r == (match self {
                Material::Ggx { albedo, .. } => Material::Ggx { albedo, alpha },
                _ => self,
            }),
    {
        match self {
            Material::Ggx { albedo, .. } => Material::Ggx { albedo, alpha },
            other => other,
        }
    }

    /// The material with another index of refraction; one that has none stays as it is.
    pub fn with_ior(self, ior: u64) -> (r: Self)
        ensures
            r == (match self {
                Material::Dielectric { absorption, .. } => Material::Dielectric { ior, absorption },
                _ => self,
            }),
    {
        match self {
            Material::Dielectric { absorption, .. } => Material::Dielectric { ior, absorption },
            other => other,
        }
    }

    /// The material with another absorption; one that has none stays as it is.
    pub fn with_absorption(self, absorption: Bits3) -> (r: Self)
        ensures
            r == (match self {
                Material::Dielectric { ior, .. } => Material::Dielectric { ior, absorption },
                _ => self,
            }),
    {
        match self {
            Material::Dielectric { ior, .. } => Material::Dielectric { ior, absorption },
            other => other,
        }
    }

    /// The material with another radiance; one that gives no light stays as it is.
    pub fn with_emit(self, emit: Bits3) -> (r: Self)
        ensures
            r == (match self {
                Material::DiffuseLight { .. } => Material::DiffuseLight { emit },
                _ => self,
            }),
    {
        match self {
            Material::DiffuseLight { .. } => Material::DiffuseLight { emit },
            other => other,
        }
    }

    /// The radiance of a light.
    pub fn emitted(&self) -> (r: Option<Bits3>)
        ensures
            r == (match *self {
                Material::DiffuseLight { emit } => Some(emit),
                _ => None,
            }),
    {
        match *self {
            Material::DiffuseLight { emit } => Some(emit),
            _ => None,
        }
    }

    /// Whether the material scatters in single directions only, so that lights are not sampled.
    pub fn is_delta(&self) -> (r: bool)
        ensures
            r == scatters_sharply(*self),
    {
        match *self {
            Material::Metal { .. } => true,
            Material::Dielectric { .. } => true,
            _ => false,
        }
    }

    /// The way in which the material scatters a ray; a light scatters none.
    pub fn lobe(&self, total_reflection: bool, chance_reflects: bool) -> (r: Option<Lobe>)
        ensures
            r == lobe_of(*self, total_reflection, chance_reflects),
    {
        match *self {
            Material::Lambert { .. } => Some(Lobe::Diffuse),
            Material::Subsurface { .. } => Some(Lobe::Diffuse),
            Material::Metal { .. } => Some(Lobe::Mirror),
            Material::Ggx { .. } => Some(Lobe::Glossy),
            Material::Dielectric { .. } => if total_reflection || chance_reflects {
                Some(Lobe::Mirror)
            } else {
                Some(Lobe::Refraction)
            },
            Material::DiffuseLight { .. } => None,
        }
    }
}

impl Lobe {
    /// Whether this way of scattering knows single directions only.
    pub fn is_delta(self) -> (r: bool)
        ensures
            r == is_sharp(self),
    {
        match self {
            Lobe::Mirror => true,
            Lobe::Refraction => true,
            _ => false,
        }
    }

    /// Whether a scattered direction is kept: what is refracted must leave on the other side of
    /// the surface, all else on the side that the ray came from.
    pub fn keeps(self, above: bool) -> (r: bool)
        ensures
            r == (above != (self is Refraction)),
    {
        match self {
            Lobe::Refraction => !above,
            _ => above,
        }
    }
}

/// However a material happens to scatter, it does so in single directions exactly if it is a
/// material that does; and everything but a light scatters.
pub proof fn scattering_is_of_one_kind(m: Material, total_reflection: bool, chance_reflects: bool)
    ensures
        lobe_of(m, total_reflection, chance_reflects) matches Some(l) ==> is_sharp(l)
            == scatters_sharply(m),
        lobe_of(m, total_reflection, chance_reflects) is None <==> m is DiffuseLight,
        total_reflection ==> lobe_of(m, total_reflection, chance_reflects) != Some(
            Lobe::Refraction,
        ),
{
}

} // verus!
