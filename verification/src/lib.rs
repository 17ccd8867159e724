//! Integer, bit-level and text-processing building blocks of a physically
//! based renderer, with their behaviour stated as contracts.

pub mod bitstack;
pub mod hash;
pub mod math;
pub mod hilbert;
pub mod algorithm;
pub mod text;
pub mod data_tree;
pub mod datatree;
pub mod ray;
pub mod parse;
pub mod assembly;
pub mod accel;
pub mod mem_arena;
pub mod image;
pub mod renderer;
pub mod color;
pub mod shading;
