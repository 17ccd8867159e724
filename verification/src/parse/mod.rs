//! Reading scene descriptions: data trees and the checks made on them.

pub mod basics;
pub mod data_tree;
pub mod psy;
pub mod parse_utils;
pub mod psy_mesh_surface;
pub mod psy_surface_shader;
pub mod psy_assembly;
