//! The map, geometry and visibility core of a turn-based grid roguelike:
//! a bounds-checked grid, integer points and compass directions, line and
//! circle rasterization, a tile map with pushing, occupancy and light, the
//! maze generator, and the lighting pass.

pub mod matrix;
pub mod point;
pub mod dir;
pub mod line;
pub mod circle;
pub mod map;
mod rng;
pub mod maze;
pub mod light;
pub mod rules;
