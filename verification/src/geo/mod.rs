//! The geometry of the view, as far as it is counted in whole tiles.

pub mod covering;

pub use covering::RootTile;
pub use covering::TileCover;
