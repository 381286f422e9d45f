//! What the library promises: how results relate to inputs, said without the definitions that the
//! contracts are written in.

pub mod checkpoint_files;
pub mod file_paths;
pub mod hdr_errors;
pub mod hdr_format;
pub mod library_rules;
pub mod light_paths;
pub mod mtl_files;
pub mod number_rules;
pub mod obj_files;
pub mod patterns;
pub mod png_effort;
pub mod png_format;
pub mod preview;
pub mod scene_elements;
pub mod scene_lights;
pub mod scene_materials;
pub mod scene_order;
pub mod scene_shapes;
pub mod text_rules;
pub mod tree_search;
pub mod warning_rules;
pub mod xml_trees;
