//! Scenes in a subset of the Mitsuba XML format.

pub mod assemble;
pub mod dressing;
pub mod gauge;
pub mod library;
pub mod lights;
pub mod materials;
pub mod paths;
pub mod props;
pub mod scene;
pub mod shapes;
pub mod soundness;
pub mod tables;
pub mod transforms;
pub mod units;
pub mod xml;
