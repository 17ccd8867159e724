//! Acceleration structures.
pub mod bvh;
pub mod bvh_base;
pub mod light_tree;
pub mod bvh4;
