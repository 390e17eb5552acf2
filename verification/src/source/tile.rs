//! A tile of a source: its address, where it stands in its life, and its
//! data once that has been loaded.

use crate::source::tile_id::{OverscaledTile, OverscaledTileId};
use crate::util::{following_id, unique_id, IdGenerator};
use vstd::prelude::*;

verus! {

/// Where a tile stands in its life.
#[derive(Debug, Clone, Copy, PartialEq, Eq, Structural)]
pub enum TileState {
    Loading,
    Loaded,
    Reloading,
    Unloaded,
    Errored,
    Expired,
}

/// What a tile holds.
pub struct TileModel {
    /// The address of the tile.
    pub tile: OverscaledTile,
    /// Where the tile stands in its life.
    pub state: TileState,
    /// The number that tells this tile from all others.
    pub uid: usize,
    /// The size of the tile in pixels, a hint for whoever draws it.
    pub size: usize,
    /// The bytes of the tile as the source sent them.
    pub data: Seq<u8>,
}

/// A tile of a source.
#[derive(Debug)]
pub struct Tile {
    tile_id: OverscaledTileId,
    state: TileState,
    uid: usize,
    size: usize,
    vector_data: Vec<u8>,
}

impl View for Tile {
    type V = TileModel;

    closed spec fn view(&self) -> TileModel {
        TileModel {
            tile: self.tile_id@,
            state: self.state,
            uid: self.uid,
            size: self.size,
            data: self.vector_data@,
        }
    }
}

impl Tile {
    /// The id of the tile.
    pub closed spec fn spec_tile_id(&self) -> OverscaledTileId {
        self.tile_id
    }

    /// The id of the tile is well formed and is the address that the view
    /// shows.
    pub open spec fn wf(&self) -> bool {
        &&& self.spec_tile_id().wf()
        &&& self.spec_tile_id()@ == self@.tile
    }

    /// A tile that is being loaded, without data yet, numbered by
    /// `generator`.
    pub fn new(tile_id: OverscaledTileId, size: usize, generator: &mut IdGenerator) -> (result:
        Self)
        requires
            tile_id.wf(),
        ensures
            result.wf(),
            result.spec_tile_id() == tile_id,
            result@ == (TileModel {
                tile: tile_id@,
                state: TileState::Loading,
                uid: old(generator).spec_next(),
                size,
                data: Seq::empty(),
            }),
            final(generator).spec_next() == following_id(old(generator).spec_next()),
    {
        Self {
            tile_id,
            state: TileState::Loading,
            uid: unique_id(generator),
            size,
            vector_data: Vec::new(),
        }
    }

    /// The id of the tile.
    pub fn tile_id(&self) -> (result: &OverscaledTileId)
        ensures
            *result == self.spec_tile_id(),
    {
        &self.tile_id
    }

    /// Where the tile stands in its life.
    pub fn state(&self) -> (result: TileState)
        ensures
            result == self@.state,
    {
        self.state
    }

    /// The number that tells this tile from all others.
    pub fn uid(&self) -> (result: usize)
        ensures
            result == self@.uid,
    {
        self.uid
    }

    /// The size of the tile in pixels.
    pub fn size(&self) -> (result: usize)
        ensures
            result == self@.size,
    {
        self.size
    }

    /// The bytes of the tile.
    pub fn vector_data(&self) -> (result: &Vec<u8>)
        ensures
            result@ == self@.data,
    {
        &self.vector_data
    }

    /// Stores the bytes of the tile; nothing else changes.
    pub fn set_vector_data(&mut self, vector_data: Vec<u8>)
        ensures
            final(self)@ == (TileModel { data: vector_data@, ..old(self)@ }),
            final(self).spec_tile_id() == old(self).spec_tile_id(),
    {
        self.vector_data = vector_data;
    }
}

} // verus!
