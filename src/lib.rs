//! Spatial caching for a tiled 2D canvas renderer: a bidirectional index of
//! which elements touch which tiles, a round-robin pool of reusable render
//! surfaces, the per-tile surface cache built on it, and the fixed byte
//! layout of transform entries.

pub mod index;
pub mod layouts;
pub mod shapes;
pub mod surfaces;
pub mod tiles;
pub mod transform;
