//! The cache of tiles: a bounded store that gives up its oldest entry first.

use crate::source::tile::Tile;
use crate::source::tile_id::{
    lemma_key_unique, overscaled_key, OverscaledTile, OverscaledTileId,
};
use std::collections::VecDeque;
use vstd::hash_map::StringHashMap;
use vstd::prelude::*;

verus! {

/// `order` without the first occurrence of `key`.
pub open spec fn remove_first(order: Seq<Seq<char>>, key: Seq<char>) -> Seq<Seq<char>>
    decreases order.len(),
{
    if order.len() == 0 {
        order
    } else if order[0] == key {
        order.drop_first()
    } else {
        seq![order[0]] + remove_first(order.drop_first(), key)
    }
}

/// The key under which the cache keeps a tile: that of the tile in the
/// first world copy, so that all copies of the world share one entry.
pub open spec fn cache_key(tile: OverscaledTile) -> Seq<char> {
    overscaled_key(tile.wrapped())
}

/// What a cache holds.
pub struct CacheModel {
    /// The greatest number of keys in the queue.
    pub max: nat,
    /// The tiles by key.
    pub data: Map<Seq<char>, Tile>,
    /// The keys in the order in which they were added, the oldest first.
    pub order: Seq<Seq<char>>,
}

impl CacheModel {
    /// The cache without the tile under `key` and without the oldest
    /// mention of `key` in the queue.
    pub open spec fn without(self, key: Seq<char>) -> CacheModel {
        CacheModel {
            data: self.data.remove(key),
            order: remove_first(self.order, key),
            ..self
        }
    }

    /// The cache after `tile` was added under `key`: the tile is stored and
    /// the key joins the end of the queue, also where it stands there
    /// already. Where the queue has then grown beyond `max`, its oldest key
    /// leaves it, together with the tile under that key and the next mention
    /// of that key in the queue.
    pub open spec fn add(self, key: Seq<char>, tile: Tile) -> CacheModel {
        let data = self.data.insert(key, tile);
        let order = self.order.push(key);
        if order.len() > self.max {
            (CacheModel { data, order: order.drop_first(), ..self }).without(order[0])
        } else {
            CacheModel { data, order, ..self }
        }
    }

    /// The cache after the tile under `key` was taken out, if there is one.
    pub open spec fn remove(self, key: Seq<char>) -> CacheModel {
        if self.data.contains_key(key) {
            self.without(key)
        } else {
            self
        }
    }

    /// The cache with nothing in it.
    pub open spec fn reset(self) -> CacheModel {
        CacheModel { data: Map::empty(), order: Seq::empty(), ..self }
    }

    /// The queue is no longer than `max`, and every stored tile has its key
    /// in the queue.
    pub open spec fn wf(self) -> bool {
        &&& self.max <= u32::MAX
        &&& self.order.len() <= self.max
        &&& forall|key: Seq<char>| #[trigger]
            self.data.contains_key(key) ==> self.order.contains(key)
    }
}

/// Taking the first occurrence of `key` out of a queue in which it first
/// stands at `at` removes the entry at `at`.
proof fn lemma_remove_first_at(order: Seq<Seq<char>>, key: Seq<char>, at: int)
    requires
        0 <= at < order.len(),
        order[at] == key,
        forall|k: int| 0 <= k < at ==> order[k] != key,
    ensures
        remove_first(order, key) == order.remove(at),
    decreases at,
{
    if at == 0 {
        assert(order.drop_first() =~= order.remove(0));
    } else {
        let rest = order.drop_first();
        assert forall|k: int| 0 <= k < at - 1 implies rest[k] != key by {
            assert(rest[k] == order[k + 1]);
        }
        lemma_remove_first_at(rest, key, at - 1);
        assert(seq![order[0]] + rest.remove(at - 1) =~= order.remove(at));
    }
}

/// A queue in which `key` does not stand is left as it is.
proof fn lemma_remove_first_absent(order: Seq<Seq<char>>, key: Seq<char>)
    requires
        forall|k: int| 0 <= k < order.len() ==> order[k] != key,
    ensures
        remove_first(order, key) == order,
    decreases order.len(),
{
    if order.len() > 0 {
        let rest = order.drop_first();
        assert forall|k: int| 0 <= k < rest.len() implies rest[k] != key by {
            assert(rest[k] == order[k + 1]);
        }
        lemma_remove_first_absent(rest, key);
        assert(seq![order[0]] + rest =~= order);
    }
}

/// What is left of a queue without the first occurrence of `key` is no
/// longer than the queue, and holds every other key of it.
proof fn lemma_remove_first_keeps(order: Seq<Seq<char>>, key: Seq<char>)
    ensures
        remove_first(order, key).len() <= order.len(),
        forall|other: Seq<char>|
            other != key && order.contains(other) ==> remove_first(order, key).contains(other),
    decreases order.len(),
{
    if order.len() > 0 {
        let rest = order.drop_first();
        lemma_remove_first_keeps(rest, key);
        let out = remove_first(order, key);
        assert forall|other: Seq<char>| other != key && order.contains(other) implies out.contains(
            other,
        ) by {
            let i = choose|i: int| 0 <= i < order.len() && order[i] == other;
            if order[0] == key {
                assert(rest[i - 1] == other);
            } else if i == 0 {
                assert(out[0] == other);
            } else {
                assert(rest[i - 1] == other);
                assert(rest.contains(other));
                let j = choose|j: int|
                    0 <= j < remove_first(rest, key).len() && remove_first(rest, key)[j] == other;
                assert(out[j + 1] == other);
            }
        }
    }
}

/// The queue of a well-formed cache stays within its bound, and every
/// stored tile keeps its key in the queue, whatever is added.
pub proof fn lemma_add_wf(cache: CacheModel, key: Seq<char>, tile: Tile)
    requires
        cache.wf(),
    ensures
        cache.add(key, tile).wf(),
{
    let data = cache.data.insert(key, tile);
    let order = cache.order.push(key);
    assert forall|k: Seq<char>| data.contains_key(k) implies order.contains(k) by {
        if k == key {
            assert(order[order.len() - 1] == key);
        } else {
            assert(cache.data.contains_key(k));
            assert(cache.order.contains(k));
            let i = choose|i: int| 0 <= i < cache.order.len() && cache.order[i] == k;
            assert(order[i] == k);
        }
    }
    if order.len() > cache.max {
        let oldest = order[0];
        let rest = order.drop_first();
        lemma_remove_first_keeps(rest, oldest);
        let after = cache.add(key, tile);
        assert forall|k: Seq<char>| after.data.contains_key(k) implies after.order.contains(k) by {
            assert(data.contains_key(k) && k != oldest);
            assert(order.contains(k));
            let i = choose|i: int| 0 <= i < order.len() && order[i] == k;
            assert(i > 0);
            assert(rest[i - 1] == k);
            assert(rest.contains(k));
        }
    }
}

/// Taking a tile out of a well-formed cache leaves it well formed.
pub proof fn lemma_remove_wf(cache: CacheModel, key: Seq<char>)
    requires
        cache.wf(),
    ensures
        cache.remove(key).wf(),
{
    lemma_remove_first_keeps(cache.order, key);
    let after = cache.remove(key);
    assert forall|k: Seq<char>| after.data.contains_key(k) implies after.order.contains(k) by {
        assert(cache.data.contains_key(k));
        assert(cache.order.contains(k));
    }
}

/// First in, first out: where the queue is full, holds each key once and
/// names exactly the stored tiles, adding a tile under a new key puts out the
/// oldest tile and nothing else.
pub proof fn lemma_add_evicts_oldest(cache: CacheModel, key: Seq<char>, tile: Tile)
    requires
        cache.wf(),
        cache.max >= 1,
        cache.order.len() == cache.max,
        cache.order.no_duplicates(),
        !cache.order.contains(key),
        forall|k: Seq<char>| cache.order.contains(k) ==> cache.data.contains_key(k),
    ensures
        cache.add(key, tile).order == cache.order.drop_first().push(key),
        cache.add(key, tile).data == cache.data.remove(cache.order[0]).insert(key, tile),
        !cache.add(key, tile).data.contains_key(cache.order[0]),
        cache.add(key, tile).data.contains_key(key),
        forall|k: Seq<char>|
            k != cache.order[0] && cache.data.contains_key(k) ==> cache.add(
                key,
                tile,
            ).data.contains_key(k),
{
    let order = cache.order.push(key);
    let oldest = order[0];
    assert(oldest == cache.order[0]);
    assert(cache.order.contains(oldest));
    let rest = order.drop_first();
    assert(rest =~= cache.order.drop_first().push(key));
    assert forall|k: int| 0 <= k < rest.len() implies rest[k] != oldest by {
        if k < rest.len() - 1 {
            assert(rest[k] == cache.order[k + 1]);
        }
    }
    lemma_remove_first_absent(rest, oldest);
    assert(cache.data.insert(key, tile).remove(oldest) =~= cache.data.remove(oldest).insert(
        key,
        tile,
    ));
}

/// While the queue is below its bound, adding a tile puts none out: the
/// tile is stored and its key joins the end of the queue.
pub proof fn lemma_add_keeps_below_bound(cache: CacheModel, key: Seq<char>, tile: Tile)
    requires
        cache.wf(),
        cache.order.len() < cache.max,
    ensures
        cache.add(key, tile).order == cache.order.push(key),
        cache.add(key, tile).data == cache.data.insert(key, tile),
{
}

/// All copies of the world share one entry: the key under which a tile is
/// kept does not depend on its world copy.
pub proof fn lemma_cache_key_shared(tile: OverscaledTile, wrap: int)
    ensures
        cache_key(OverscaledTile { wrap, ..tile }) == cache_key(tile),
{
}

/// Tiles that differ in more than their world copy are kept under different
/// keys.
pub proof fn lemma_cache_key_unique(a: OverscaledTile, b: OverscaledTile)
    requires
        a.valid(),
        b.valid(),
        cache_key(a) == cache_key(b),
    ensures
        a.wrapped() == b.wrapped(),
{
    lemma_key_unique(a.wrapped(), b.wrapped());
}

/// A bounded store of tiles that gives up its oldest entry first.
pub struct TileCache {
    max: u32,
    data: StringHashMap<Tile>,
    order: VecDeque<String>,
}

impl View for TileCache {
    type V = CacheModel;

    closed spec fn view(&self) -> CacheModel {
        CacheModel {
            max: self.max as nat,
            data: self.data@,
            order: Seq::new(self.order@.len(), |i: int| self.order@[i]@),
        }
    }
}

impl TileCache {
    /// An empty cache whose queue holds up to `max` keys.
    pub fn new(max: u32) -> (result: Self)
        ensures
            result@ == (CacheModel { max: max as nat, data: Map::empty(), order: Seq::empty() }),
            result@.wf(),
    {
        let result = Self { max, data: StringHashMap::new(), order: VecDeque::new() };
        assert(result@.order =~= Seq::empty());
        result
    }

    /// Empties the cache.
    pub fn reset(&mut self)
        ensures
            final(self)@ == old(self)@.reset(),
            final(self)@.wf(),
    {
        self.data.clear();
        self.order.clear();
        assert(self@.order =~= Seq::empty());
    }

    /// Stores `data` as the tile of `tile_id`, and puts out the oldest tile
    /// where the queue has grown beyond its bound.
    pub fn add(&mut self, tile_id: &OverscaledTileId, data: Tile)
        requires
            tile_id.wf(),
        ensures
            final(self)@ == old(self)@.add(cache_key(tile_id@), data),
            old(self)@.wf() ==> final(self)@.wf(),
    {
        proof {
            if self@.wf() {
                lemma_add_wf(self@, cache_key(tile_id@), data);
            }
        }
        let ghost before = self@;
        let key = tile_id.wrapped().key();

        self.data.insert(key.clone(), data);
        self.order.push_back(key);
        assert(self@.order =~= before.order.push(cache_key(tile_id@)));

        if self.order.len() > self.max as usize {
            let ghost pushed = self@;
            if let Some(front) = self.order.pop_front() {
                assert(self@.order =~= pushed.order.drop_first());
                assert(front@ == pushed.order[0]);
                self.get_and_remove_by_key(front.as_str());
            }
        }
    }

    /// Takes out the tile under `key` and the oldest mention of `key` in the
    /// queue.
    fn get_and_remove_by_key(&mut self, key: &str)
        ensures
            final(self)@ == old(self)@.without(key@),
    {
        let ghost before = self@;
        self.data.remove(key);
        let wanted: String = key.to_owned();
        let mut at: usize = 0;
        while at < self.order.len()
            invariant
                at <= self.order@.len(),
                wanted@ == key@,
                before == old(self)@,
                self@.max == before.max,
                self.data@ == before.data.remove(key@),
                self@.order == before.order,
                forall|k: int| 0 <= k < at ==> before.order[k] != key@,
            decreases self.order@.len() - at,
        {
            assert(self@.order[at as int] == self.order@[at as int]@);
            if self.order[at] == wanted {
                proof {
                    lemma_remove_first_at(before.order, key@, at as int);
                }
                self.order.remove(at);
                assert(self@.order =~= before.order.remove(at as int));
                return ;
            }
            at += 1;
        }
        proof {
            lemma_remove_first_absent(before.order, key@);
        }
    }

    /// Whether a tile is stored for `tile_id`.
    pub fn has(&self, tile_id: &OverscaledTileId) -> (result: bool)
        requires
            tile_id.wf(),
        ensures
            result == self@.data.contains_key(cache_key(tile_id@)),
    {
        let key = tile_id.wrapped().key();
        self.data.contains_key(key.as_str())
    }

    /// Takes out the tile of `tile_id`, if there is one.
    pub fn remove(&mut self, tile_id: &OverscaledTileId)
        requires
            tile_id.wf(),
        ensures
            final(self)@ == old(self)@.remove(cache_key(tile_id@)),
            old(self)@.wf() ==> final(self)@.wf(),
    {
        proof {
            if self@.wf() {
                lemma_remove_wf(self@, cache_key(tile_id@));
            }
        }
        if self.has(tile_id) {
            let key = tile_id.wrapped().key();
            self.get_and_remove_by_key(key.as_str())
        }
    }

    /// The tile stored under `key`.
    pub fn get_by_key(&self, key: &str) -> (result: Option<&Tile>)
        ensures
            match result {
                Some(tile) => self@.data.contains_key(key@) && *tile == self@.data[key@],
                None => !self@.data.contains_key(key@),
            },
    {
        self.data.get(key)
    }

    /// The tile stored for `tile_id`.
    pub fn get(&self, tile_id: &OverscaledTileId) -> (result: Option<&Tile>)
        requires
            tile_id.wf(),
        ensures
            match result {
                Some(tile) => self@.data.contains_key(cache_key(tile_id@)) && *tile
                    == self@.data[cache_key(tile_id@)],
                None => !self@.data.contains_key(cache_key(tile_id@)),
            },
    {
        let key = tile_id.wrapped().key();
        self.data.get(key.as_str())
    }
}

} // verus!
