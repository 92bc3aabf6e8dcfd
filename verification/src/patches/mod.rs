pub mod mesh_config;
pub mod render;
pub mod rendered;
