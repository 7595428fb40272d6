//! Procedural terrain generation for a cylindrical world, with the
//! integer-valued parts of the pipeline verified.
pub mod biome;
pub mod elevation;
pub mod flood;
pub mod grid;
pub mod stats;
pub mod strait;
pub mod noise;
pub mod image_export;
pub mod keybinds;
pub mod sampling;
pub mod nations;
pub mod rgb_image;
pub mod terrain_mesh;
pub mod players;
pub mod worldgen_menu;
pub mod state;
pub mod pause_menu;
