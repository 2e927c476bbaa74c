//! Tile selection, placement and caching for a pannable raster-tile map.
//!
//! All geometry is done in whole logical pixels, so every result here is
//! exact; turning it into floating-point vertex data is left to the renderer.

pub mod rect;
pub mod tile;
pub mod tile_cache;
pub mod tile_coordinates;
pub mod tile_grid;
pub mod tile_id;
