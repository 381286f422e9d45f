//! Bounding volume hierarchies: building the tree, folding it into a wide one, and walking it.

pub mod construct;
pub mod hits;
pub mod keys;
pub mod order;
pub mod split;
pub mod walk;
pub mod wide;
