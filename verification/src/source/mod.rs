//! Tiles: their addresses, what they hold, and the cache that keeps them.

pub mod tile;
pub mod tile_cache;
pub mod tile_id;

pub use tile::Tile;
pub use tile::TileState;
pub use tile_cache::TileCache;
pub use tile_id::CanonicalTileId;
pub use tile_id::OverscaledTileId;
pub use tile_id::UnwrappedTileId;
