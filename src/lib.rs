//! Simulation core of a 2D destructible-terrain sandbox: a tile grid, terrain
//! generation from column heights, radius brushes, and a collision resolver
//! that pushes bodies out of solid tiles.
//!
//! Tile-space geometry is fixed-point: a coordinate counts [`math::UNIT`]
//! steps per tile. Tile numbers are rounded down; the other divisions of
//! the geometry round toward zero.

pub mod math;
pub mod physics;
pub mod world;
pub mod editing;
