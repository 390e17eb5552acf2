//! The spatial core of a map client: tile addressing, the tile cache, and
//! the quadtree descent that picks the tiles covering a view.

pub mod geo;
pub mod source;
pub mod style_spec;
pub mod util;
