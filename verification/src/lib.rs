pub mod accuracy;
pub mod body_mutation;
pub mod clearance;
pub mod clothing_deformer;
pub mod error;
pub mod fit_accuracy;
pub mod json_numbers;
pub mod kd_tree;
pub mod mesh_merge;
pub mod obj_loader;
pub mod obj_references;
pub mod pack_builder;
pub mod parallel;
pub mod rounding;
pub mod single;
pub mod skeleton_resolver;
pub mod smooth_accuracy;
pub mod text;
pub mod texture_atlas;
pub mod vector;
pub mod vector_accuracy;
pub mod vertex;
