//! Tiling engine for line features: the tile grid, the per-tile priority and
//! byte-budget policy, the geographic bounding box, the attribute schema and
//! the archive addressing of tiles.

use vstd::prelude::*;

pub mod bbox;
pub mod load;
pub mod plan;
pub mod select;
pub mod tile;

verus! {

/// How the tile pyramid is built.
#[derive(Debug)]
pub struct Options {
    /// Name of the one layer in every tile.
    pub layer_name: String,
    /// Attribute whose numeric value orders the features of a tile, highest first.
    pub sort_by_key: Option<String>,
    /// Zoom levels to build, ascending; the first and last bound the archive.
    pub zoom_levels: Vec<u32>,
    /// Byte budget for the encoded geometry of one tile.
    pub limit_size_bytes: Option<usize>,
}

impl Options {
    /// The archive's minimum and maximum zoom: the first and the last of the
    /// requested levels, which are taken to be in ascending order.
    pub fn zoom_bounds(&self) -> (r: (u32, u32))
        requires
            self.zoom_levels@.len() > 0,
        ensures
            r == (self.zoom_levels@[0], self.zoom_levels@.last()),
    {
        (self.zoom_levels[0], self.zoom_levels[self.zoom_levels.len() - 1])
    }
}

} // verus!
