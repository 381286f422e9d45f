//! The verified core of the tinypt path tracer: image codecs, render checkpoints, scene and mesh
//! readers, acceleration structures and the bookkeeping rules of the integrator.

pub mod bvh;
pub mod checkpoint;
pub mod config;
pub mod constants;
pub mod decimal;
pub mod env;
pub mod hdr;
pub mod integrator;
pub mod laws;
pub mod material;
pub mod mitsuba;
pub mod mtl;
pub mod noise;
pub mod normal_map;
pub mod obj;
pub mod output;
pub mod png;
pub mod reals;
pub mod rng;
pub mod text;
pub mod texture;
pub mod viewer;
