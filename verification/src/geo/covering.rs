//! Picking the tiles that cover a view.
//!
//! The tiles are found by a descent through the quadtree, from one root per
//! world copy down to the zoom of the view. The descent is kept here as a
//! work stack and the leaves found so far. Whoever drives it looks at the
//! node on top of the stack, measures how its box lies to the view volume
//! and how far it is from the centre of the view, and hands both back; the
//! descent then drops the node, keeps it as a leaf, or splits it in four.

use crate::source::tile_id::{OverscaledTile, OverscaledTileId, TileCoord};
use crate::util::aabb::{Aabb, IntersectionType};
use crate::util::sort::{
    lemma_order_is_permutation, lemma_order_is_sorted, order_by_key, sorted_order,
};
use crate::util::{lemma_pow2_bound, pow2_u64};
use std::collections::VecDeque;
use vstd::arithmetic::div_mod::lemma_div_denominator;
use vstd::arithmetic::power2::{
    lemma2_to64, lemma_pow2_adds, lemma_pow2_pos, lemma_pow2_unfold, pow2,
};
use vstd::prelude::*;

verus! {

/// A node of the descent: a tile, the world copy it lies in, its box in the
/// tile indices of the view's zoom, and whether an ancestor was found to lie
/// wholly inside the view volume.
#[derive(Debug, Clone, Copy, PartialEq, Eq, Structural)]
pub struct RootTile {
    pub aabb: Aabb,
    pub zoom: u32,
    pub x: u32,
    pub y: u32,
    pub wrap: i32,
    pub fully_visible: bool,
}

impl RootTile {
    /// The tile of this node.
    pub open spec fn coord(self) -> TileCoord {
        TileCoord { z: self.zoom as nat, x: self.x as nat, y: self.y as nat }
    }

    /// The side of this node's box in the tile indices of zoom `z`.
    pub open spec fn side(self, z: nat) -> nat {
        pow2((z - self.zoom) as nat)
    }

    /// The node is a tile of a zoom up to `z`, and its box is the square
    /// that the tile covers in the tile indices of zoom `z`, shifted by
    /// whole worlds into its world copy.
    pub open spec fn wf(self, z: nat) -> bool {
        &&& self.zoom <= z <= 25
        &&& self.x < pow2(self.zoom as nat)
        &&& self.y < pow2(self.zoom as nat)
        &&& self.aabb.min_x == (self.wrap * pow2(self.zoom as nat) + self.x) * self.side(z)
        &&& self.aabb.min_y == self.y * self.side(z)
        &&& self.aabb.max_x == self.aabb.min_x + self.side(z)
        &&& self.aabb.max_y == self.aabb.min_y + self.side(z)
    }

    /// The root of world copy `wrap` where a world is `num_tiles` tiles
    /// wide: the whole world as one tile of zoom 0.
    pub open spec fn root(wrap: i32, num_tiles: u32) -> RootTile {
        RootTile {
            aabb: Aabb {
                min_x: (wrap * num_tiles) as i64,
                min_y: 0,
                max_x: ((wrap + 1) * num_tiles) as i64,
                max_y: num_tiles as i64,
            },
            zoom: 0,
            x: 0,
            y: 0,
            wrap,
            fully_visible: false,
        }
    }

    /// The child of this node with the given index: 0 and 2 are the left
    /// children, 1 and 3 the right; 0 and 1 the upper, 2 and 3 the lower.
    pub open spec fn spec_child(self, index: nat, fully_visible: bool) -> RootTile {
        RootTile {
            aabb: self.aabb.spec_quadrant(index),
            zoom: (self.zoom + 1) as u32,
            x: (2 * self.x + index % 2) as u32,
            y: (2 * self.y + index / 2) as u32,
            wrap: self.wrap,
            fully_visible,
        }
    }

    /// The root of world copy `wrap` where a world is `num_tiles` tiles wide.
    pub fn new(wrap: i32, num_tiles: u32) -> (result: Self)
        ensures
            result == Self::root(wrap, num_tiles),
    {
        let wide: i64 = wrap as i64;
        let tiles: i64 = num_tiles as i64;
        assert(-9223372036854775808 <= wide * tiles <= 9223372036854775807) by (nonlinear_arith)
            requires
                -2147483648 <= wide <= 2147483647,
                0 <= tiles <= 4294967295,
        ;
        assert(-9223372036854775808 <= (wide + 1) * tiles <= 9223372036854775807)
            by (nonlinear_arith)
            requires
                -2147483648 <= wide <= 2147483647,
                0 <= tiles <= 4294967295,
        ;
        Self {
            aabb: Aabb::new(wide * tiles, 0, (wide + 1) * tiles, tiles),
            zoom: 0,
            x: 0,
            y: 0,
            wrap,
            fully_visible: false,
        }
    }

    /// The child of this node with the given index.
    pub fn child(&self, index: usize, fully_visible: bool) -> (result: Self)
        requires
            index < 4,
            self.aabb.splits(),
            self.zoom < u32::MAX,
            self.x <= 2147483647,
            self.y <= 2147483647,
        ensures
            result == self.spec_child(index as nat, fully_visible),
    {
        let dx: u32 = (index % 2) as u32;
        let dy: u32 = (index / 2) as u32;
        Self {
            aabb: self.aabb.quadrant(index),
            zoom: self.zoom + 1,
            x: 2 * self.x + dx,
            y: 2 * self.y + dy,
            wrap: self.wrap,
            fully_visible,
        }
    }
}

/// The root of a world copy is a well-formed node.
pub proof fn lemma_root_wf(wrap: i32, z: nat)
    requires
        z <= 25,
    ensures
        RootTile::root(wrap, pow2(z) as u32).wf(z),
{
    lemma_pow2_bound(z);
    vstd::arithmetic::power2::lemma2_to64();
    let n = pow2(z) as int;
    assert(-9223372036854775808 <= wrap * n <= 9223372036854775807) by (nonlinear_arith)
        requires
            -2147483648 <= wrap <= 2147483647,
            0 <= n <= 33554432,
    ;
    assert(-9223372036854775808 <= (wrap + 1) * n <= 9223372036854775807) by (nonlinear_arith)
        requires
            -2147483648 <= wrap <= 2147483647,
            0 <= n <= 33554432,
    ;
    assert((wrap * 1 + 0) * n == wrap * n) by (nonlinear_arith);
    assert((wrap + 1) * n == wrap * n + n) by (nonlinear_arith);
}

/// Above the view's zoom a well-formed node has a box that can be split,
/// and each of its four children is a well-formed node.
pub proof fn lemma_child_wf(node: RootTile, z: nat, index: nat, fully_visible: bool)
    requires
        node.wf(z),
        node.zoom < z,
        index < 4,
    ensures
        node.aabb.splits(),
        node.spec_child(index, fully_visible).wf(z),
        node.spec_child(index, fully_visible).coord() == node.coord().child(index % 2, index / 2),
{
    let k = (z - node.zoom) as nat;
    let half = pow2((k - 1) as nat) as int;
    let dim = pow2(node.zoom as nat) as int;
    lemma_pow2_unfold(k);
    lemma_pow2_unfold((node.zoom + 1) as nat);
    lemma_pow2_pos((k - 1) as nat);
    lemma_pow2_bound(node.zoom as nat);
    lemma_pow2_bound((node.zoom + 1) as nat);
    lemma_pow2_bound(k);
    lemma_pow2_bound((k - 1) as nat);
    let side = node.side(z) as int;
    assert(side == 2 * half);
    assert(node.aabb.center_x() == node.aabb.min_x + half);
    assert(node.aabb.center_y() == node.aabb.min_y + half);
    let child = node.spec_child(index, fully_visible);
    let dx = (index % 2) as int;
    let dy = (index / 2) as int;
    let w = node.wrap as int;
    let x = node.x as int;
    let y = node.y as int;
    assert((w * (2 * dim) + (2 * x + dx)) * half == (w * dim + x) * (2 * half) + dx * half)
        by (nonlinear_arith);
    assert((2 * y + dy) * half == y * (2 * half) + dy * half) by (nonlinear_arith);
    assert(dx * half == if dx == 0 { 0 } else { half }) by (nonlinear_arith)
        requires
            dx == 0 || dx == 1,
    ;
    assert(dy * half == if dy == 0 { 0 } else { half }) by (nonlinear_arith)
        requires
            dy == 0 || dy == 1,
    ;
    assert(child.side(z) == half);
}

/// A tile that the descent has picked, with the number by which picked
/// tiles are ordered: a measure of its distance from the centre of the view.
pub struct LeafModel {
    pub tile: OverscaledTile,
    pub distance: u64,
}

/// Whether a tile of world copy `wrap` can be picked: without world copies
/// only the first world is looked at, with them three more to each side.
pub open spec fn wrap_allowed(world_copies: bool, wrap: int) -> bool {
    if world_copies {
        -3 <= wrap <= 3
    } else {
        wrap == 0
    }
}

/// Whether the tile `a` in world copy `a_wrap` is the tile `b` in world copy
/// `b_wrap` or one of its ancestors.
pub open spec fn covers(a_wrap: int, a: TileCoord, b_wrap: int, b: TileCoord) -> bool {
    &&& a_wrap == b_wrap
    &&& a.z <= b.z
    &&& b.ancestor((b.z - a.z) as nat) == a
}

/// Neither of the two tiles is the other or an ancestor of it: they show
/// different parts of the world.
pub open spec fn apart(a_wrap: int, a: TileCoord, b_wrap: int, b: TileCoord) -> bool {
    !covers(a_wrap, a, b_wrap, b) && !covers(b_wrap, b, a_wrap, a)
}

/// The number of nodes in a quadtree that is split `levels` times.
pub open spec fn subtree_size(levels: nat) -> nat
    decreases levels,
{
    if levels == 0 {
        1
    } else {
        1 + 4 * subtree_size((levels - 1) as nat)
    }
}

/// The number of nodes that the descent can still look at: those on the
/// stack and all that lie below them down to zoom `z`.
pub open spec fn stack_work(stack: Seq<RootTile>, z: nat) -> nat
    decreases stack.len(),
{
    if stack.len() == 0 {
        0
    } else {
        stack_work(stack.drop_last(), z) + subtree_size((z - stack.last().zoom) as nat)
    }
}

/// The zoom of the tiles that cover a view of zoom `zoom`: `zoom` itself,
/// or the greatest zoom of the source where the view goes beyond it.
pub open spec fn target_zoom(zoom: u32, max_zoom: Option<u32>) -> u32 {
    match max_zoom {
        Some(max) => if zoom > max {
            max
        } else {
            zoom
        },
        None => zoom,
    }
}

/// Whether a view of zoom `zoom` lies below the least zoom of the source,
/// so that no tile covers it.
pub open spec fn below_floor(zoom: u32, min_zoom: Option<u32>) -> bool {
    match min_zoom {
        Some(min) => zoom < min,
        None => false,
    }
}

/// The state of a descent.
pub struct CoverState {
    /// The zoom of the tiles that cover the view.
    pub z: nat,
    /// The least zoom at which a tile far from the centre may stand for its
    /// descendants.
    pub min_zoom: nat,
    /// The rendering zoom given to the tiles of zoom `z`.
    pub overscaled_z: nat,
    /// Whether copies of the world to the left and right are looked at.
    pub world_copies: bool,
    /// The nodes still to be looked at, the next one last.
    pub stack: Seq<RootTile>,
    /// The tiles picked so far, in the order in which they were picked.
    pub leaves: Seq<LeafModel>,
}

impl CoverState {
    /// The state before the first step, for a view of zoom `zoom`.
    ///
    /// Below the least zoom of the source there is nothing to do. Else the
    /// tiles have the zoom of the view, capped by the greatest zoom of the
    /// source, and get the uncapped zoom as their rendering zoom where
    /// `reparse_overscaled` asks for it. Seen from straight above, only
    /// tiles of that zoom are picked. The stack starts with the roots of
    /// the world copies, the first world on top.
    pub open spec fn start(
        zoom: u32,
        min_zoom: Option<u32>,
        max_zoom: Option<u32>,
        top_down: bool,
        reparse_overscaled: bool,
        world_copies: bool,
    ) -> CoverState {
        if below_floor(zoom, min_zoom) {
            CoverState {
                z: 0,
                min_zoom: 0,
                overscaled_z: 0,
                world_copies,
                stack: Seq::empty(),
                leaves: Seq::empty(),
            }
        } else {
            let z = target_zoom(zoom, max_zoom);
            let num_tiles = pow2(z as nat) as u32;
            CoverState {
                z: z as nat,
                min_zoom: if top_down {
                    z as nat
                } else {
                    match min_zoom {
                        Some(min) => min as nat,
                        None => 0,
                    }
                },
                overscaled_z: if reparse_overscaled {
                    zoom as nat
                } else {
                    z as nat
                },
                world_copies,
                stack: if world_copies {
                    seq![
                        RootTile::root(-1i32, num_tiles),
                        RootTile::root(1, num_tiles),
                        RootTile::root(-2i32, num_tiles),
                        RootTile::root(2, num_tiles),
                        RootTile::root(-3i32, num_tiles),
                        RootTile::root(3, num_tiles),
                        RootTile::root(0, num_tiles),
                    ]
                } else {
                    seq![RootTile::root(0, num_tiles)]
                },
                leaves: Seq::empty(),
            }
        }
    }

    /// How far, in tiles of zoom `z`, a node must be from the centre of the
    /// view to stand for its descendants: three tiles, and more the coarser
    /// the node is.
    pub open spec fn dist_to_split(self, node: RootTile) -> int {
        3 + pow2((self.z - node.zoom) as nat) - 2
    }

    /// Whether `node` is picked: at the zoom of the view always, above it
    /// where the node lies far enough from the centre and is not coarser
    /// than the least zoom.
    pub open spec fn picks(self, node: RootTile, longest_dim: u64) -> bool {
        node.zoom == self.z || (longest_dim > self.dist_to_split(node) && node.zoom
            >= self.min_zoom)
    }

    /// The tile that is picked for `node`: at the zoom of the view it gets
    /// the rendering zoom of the descent, above it its own zoom.
    pub open spec fn leaf_tile(self, node: RootTile) -> OverscaledTile {
        OverscaledTile {
            overscaled_z: if node.zoom == self.z {
                self.overscaled_z
            } else {
                node.zoom as nat
            },
            wrap: node.wrap as int,
            canonical: node.coord(),
        }
    }

    /// The state after one step, in which the node on top of the stack was
    /// found to lie to the view volume as `intersection` says, at most
    /// `longest_dim` tiles from the centre along an axis (rounded up), with
    /// `distance` as its measure of distance.
    ///
    /// A node outside the view volume is dropped, unless an ancestor lay
    /// wholly inside. A node that is picked becomes a leaf. Any other node
    /// is replaced by its four children, which are known to be visible
    /// where the node or an ancestor lay wholly inside.
    pub open spec fn step(
        self,
        intersection: IntersectionType,
        longest_dim: u64,
        distance: u64,
    ) -> CoverState {
        if self.stack.len() == 0 {
            self
        } else {
            let node = self.stack.last();
            let rest = self.stack.drop_last();
            if !node.fully_visible && intersection
                == IntersectionType::NoIntersection {
                CoverState { stack: rest, ..self }
            } else if self.picks(node, longest_dim) {
                CoverState {
                    stack: rest,
                    leaves: self.leaves.push(
                        LeafModel { tile: self.leaf_tile(node), distance },
                    ),
                    ..self
                }
            } else {
                let visible = node.fully_visible || intersection
                    == IntersectionType::Inside;
                CoverState {
                    stack: rest.push(node.spec_child(0, visible)).push(
                        node.spec_child(1, visible),
                    ).push(node.spec_child(2, visible)).push(node.spec_child(3, visible)),
                    ..self
                }
            }
        }
    }

    /// Whether `tile` can have been picked: it is valid and lies in a world
    /// copy that is looked at. At the zoom of the view it has the rendering
    /// zoom of the descent. Above the zoom of the view it is rendered at
    /// its own zoom, which is not coarser than the least zoom.
    pub open spec fn admits(self, tile: OverscaledTile) -> bool {
        &&& tile.valid()
        &&& wrap_allowed(self.world_copies, tile.wrap)
        &&& tile.canonical.z <= self.z
        &&& tile.canonical.z == self.z ==> tile.overscaled_z == self.overscaled_z
        &&& tile.canonical.z < self.z ==> tile.overscaled_z == tile.canonical.z
            && tile.canonical.z >= self.min_zoom
    }

    /// Every node on the stack is well formed and lies in a world copy that
    /// is looked at, and every picked tile can have been picked.
    pub open spec fn wf(self) -> bool {
        &&& self.z <= 25
        &&& self.z <= self.overscaled_z <= u32::MAX
        &&& self.min_zoom <= u32::MAX
        &&& forall|i: int|
            0 <= i < self.stack.len() ==> (#[trigger] self.stack[i]).wf(self.z) && wrap_allowed(
                self.world_copies,
                self.stack[i].wrap as int,
            )
        &&& forall|i: int| 0 <= i < self.leaves.len() ==> self.admits((#[trigger] self.leaves[i]).tile)
    }

    /// No two of the nodes on the stack and the picked tiles show the same
    /// part of the world.
    pub open spec fn all_apart(self) -> bool {
        &&& forall|i: int, j: int|
            #![trigger self.stack[i], self.stack[j]]
            0 <= i < j < self.stack.len() ==> apart(
                self.stack[i].wrap as int,
                self.stack[i].coord(),
                self.stack[j].wrap as int,
                self.stack[j].coord(),
            )
        &&& forall|i: int, j: int|
            #![trigger self.leaves[i], self.leaves[j]]
            0 <= i < j < self.leaves.len() ==> apart(
                self.leaves[i].tile.wrap,
                self.leaves[i].tile.canonical,
                self.leaves[j].tile.wrap,
                self.leaves[j].tile.canonical,
            )
        &&& forall|i: int, j: int|
            #![trigger self.stack[i], self.leaves[j]]
            0 <= i < self.stack.len() && 0 <= j < self.leaves.len() ==> apart(
                self.stack[i].wrap as int,
                self.stack[i].coord(),
                self.leaves[j].tile.wrap,
                self.leaves[j].tile.canonical,
            )
    }

    /// Whether the descent has come to its end.
    pub open spec fn done(self) -> bool {
        self.stack.len() == 0
    }

    /// The number of steps that the descent can still take at most.
    pub open spec fn work(self) -> nat {
        stack_work(self.stack, self.z)
    }

    /// The distances of the picked tiles, in the order in which they were
    /// picked.
    pub open spec fn distances(self) -> Seq<u64> {
        Seq::new(self.leaves.len(), |i: int| self.leaves[i].distance)
    }

    /// The picked tiles, nearest first; tiles of equal distance in the
    /// order in which they were picked.
    pub open spec fn tiles(self) -> Seq<OverscaledTile> {
        Seq::new(
            self.leaves.len(),
            |i: int| self.leaves[order_by_key(self.distances())[i]].tile,
        )
    }
}

/// A quadtree that is split at all has more than one node.
proof fn lemma_subtree_size(levels: nat)
    ensures
        subtree_size(levels) >= 1,
        levels > 0 ==> subtree_size(levels) == 1 + 4 * subtree_size((levels - 1) as nat),
{
}

/// A node put on the stack adds the nodes of its subtree to the work.
proof fn lemma_work_push(stack: Seq<RootTile>, node: RootTile, z: nat)
    ensures
        stack_work(stack.push(node), z) == stack_work(stack, z) + subtree_size(
            (z - node.zoom) as nat,
        ),
{
    assert(stack.push(node).drop_last() =~= stack);
}

/// The descent starts in a well-formed state.
pub proof fn lemma_start_wf(
    zoom: u32,
    min_zoom: Option<u32>,
    max_zoom: Option<u32>,
    top_down: bool,
    reparse_overscaled: bool,
    world_copies: bool,
)
    requires
        !below_floor(zoom, min_zoom) ==> target_zoom(zoom, max_zoom) <= 25,
    ensures
        CoverState::start(
            zoom,
            min_zoom,
            max_zoom,
            top_down,
            reparse_overscaled,
            world_copies,
        ).wf(),
{
    if !below_floor(zoom, min_zoom) {
        let z = target_zoom(zoom, max_zoom) as nat;
        lemma_root_wf(0, z);
        lemma_root_wf(1, z);
        lemma_root_wf(2, z);
        lemma_root_wf(3, z);
        lemma_root_wf(-1i32, z);
        lemma_root_wf(-2i32, z);
        lemma_root_wf(-3i32, z);
    }
}

/// A step leaves a well-formed state well formed.
pub proof fn lemma_step_wf(
    state: CoverState,
    intersection: IntersectionType,
    longest_dim: u64,
    distance: u64,
)
    requires
        state.wf(),
    ensures
        state.step(intersection, longest_dim, distance).wf(),
{
    let after = state.step(intersection, longest_dim, distance);
    if state.stack.len() > 0 {
        let node = state.stack.last();
        let rest = state.stack.drop_last();
        assert(node.wf(state.z));
        assert forall|i: int| 0 <= i < rest.len() implies (#[trigger] rest[i]).wf(state.z)
            && wrap_allowed(state.world_copies, rest[i].wrap as int) by {
            assert(rest[i] == state.stack[i]);
        }
        if !node.fully_visible && intersection == IntersectionType::NoIntersection {
        } else if state.picks(node, longest_dim) {
            assert(state.admits(state.leaf_tile(node)));
            assert forall|i: int| 0 <= i < after.leaves.len() implies after.admits(
                (#[trigger] after.leaves[i]).tile,
            ) by {
                if i < state.leaves.len() {
                    assert(after.leaves[i] == state.leaves[i]);
                    assert(state.admits(state.leaves[i].tile));
                }
            }
        } else {
            let visible = node.fully_visible || intersection == IntersectionType::Inside;
            lemma_child_wf(node, state.z, 0, visible);
            lemma_child_wf(node, state.z, 1, visible);
            lemma_child_wf(node, state.z, 2, visible);
            lemma_child_wf(node, state.z, 3, visible);
            assert forall|i: int| 0 <= i < after.stack.len() implies (
            #[trigger] after.stack[i]).wf(state.z) && wrap_allowed(
                state.world_copies,
                after.stack[i].wrap as int,
            ) by {
                if i < rest.len() {
                    assert(after.stack[i] == rest[i]);
                }
            }
        }
    }
}

/// Every step takes away from the work that is left, so the descent ends.
pub proof fn lemma_step_work(
    state: CoverState,
    intersection: IntersectionType,
    longest_dim: u64,
    distance: u64,
)
    requires
        state.wf(),
        !state.done(),
    ensures
        state.step(intersection, longest_dim, distance).work() < state.work(),
{
    let node = state.stack.last();
    let rest = state.stack.drop_last();
    let z = state.z;
    let levels = (z - node.zoom) as nat;
    lemma_subtree_size(levels);
    assert(node.wf(z));
    if !node.fully_visible && intersection == IntersectionType::NoIntersection {
    } else if state.picks(node, longest_dim) {
    } else {
        let visible = node.fully_visible || intersection == IntersectionType::Inside;
        let c0 = node.spec_child(0, visible);
        let c1 = node.spec_child(1, visible);
        let c2 = node.spec_child(2, visible);
        let c3 = node.spec_child(3, visible);
        lemma_work_push(rest, c0, z);
        lemma_work_push(rest.push(c0), c1, z);
        lemma_work_push(rest.push(c0).push(c1), c2, z);
        lemma_work_push(rest.push(c0).push(c1).push(c2), c3, z);
    }
}

/// The tiles that a descent gives are the picked tiles, rearranged so that
/// distances never fall, and each can have been picked: it lies in a world
/// copy that was looked at, which is the first world where world copies are
/// off.
pub proof fn lemma_tiles_ordered(state: CoverState)
    requires
        state.wf(),
    ensures
        state.tiles().len() == state.leaves.len(),
        forall|i: int| 0 <= i < state.tiles().len() ==> state.admits(#[trigger] state.tiles()[i]),
        !state.world_copies ==> forall|i: int|
            0 <= i < state.tiles().len() ==> (#[trigger] state.tiles()[i]).wrap == 0,
        forall|i: int, j: int|
            0 <= i < j < state.leaves.len() ==> state.distances()[#[trigger] order_by_key(
                state.distances(),
            )[i]] <= state.distances()[#[trigger] order_by_key(state.distances())[j]],
        forall|k: int|
            0 <= k < state.leaves.len() ==> order_by_key(state.distances()).contains(k),
{
    lemma_order_is_permutation(state.distances());
    lemma_order_is_sorted(state.distances());
    assert forall|i: int| 0 <= i < state.tiles().len() implies state.admits(
        #[trigger] state.tiles()[i],
    ) by {
        let at = order_by_key(state.distances())[i];
        assert(state.admits(state.leaves[at].tile));
    }
}

/// Where the least zoom is the zoom of the view, as it is for a view from
/// straight above, every tile that a descent gives has the zoom of the view
/// and the rendering zoom of the descent.
pub proof fn lemma_tiles_of_one_zoom(state: CoverState)
    requires
        state.wf(),
        state.min_zoom >= state.z,
    ensures
        forall|i: int|
            0 <= i < state.tiles().len() ==> (#[trigger] state.tiles()[i]).canonical.z == state.z
                && state.tiles()[i].overscaled_z == state.overscaled_z,
{
    lemma_tiles_ordered(state);
    assert forall|i: int| 0 <= i < state.tiles().len() implies (
    #[trigger] state.tiles()[i]).canonical.z == state.z && state.tiles()[i].overscaled_z
        == state.overscaled_z by {
        assert(state.admits(state.tiles()[i]));
    }
}

/// A tile is its own ancestor no zooms up.
proof fn lemma_ancestor_zero(t: TileCoord)
    ensures
        t.ancestor(0) == t,
{
    lemma2_to64();
}

/// Going up `first` zooms and then `then` more is going up both at once.
proof fn lemma_ancestor_split(t: TileCoord, first: nat, then: nat)
    requires
        first + then <= t.z,
    ensures
        t.ancestor(first + then) == t.ancestor(first).ancestor(then),
{
    lemma_pow2_adds(first, then);
    lemma_pow2_pos(first);
    lemma_pow2_pos(then);
    lemma_div_denominator(t.x as int, pow2(first) as int, pow2(then) as int);
    lemma_div_denominator(t.y as int, pow2(first) as int, pow2(then) as int);
}

/// The parent of a child is the tile that was split.
proof fn lemma_child_parent(t: TileCoord, dx: nat, dy: nat)
    requires
        dx <= 1,
        dy <= 1,
    ensures
        t.child(dx, dy).ancestor(1) == t,
{
    lemma2_to64();
}

/// A tile that is apart from another has its children apart from it.
proof fn lemma_child_apart(
    wrap: int,
    parent: TileCoord,
    dx: nat,
    dy: nat,
    other_wrap: int,
    other: TileCoord,
)
    requires
        dx <= 1,
        dy <= 1,
        apart(wrap, parent, other_wrap, other),
    ensures
        apart(wrap, parent.child(dx, dy), other_wrap, other),
        apart(other_wrap, other, wrap, parent.child(dx, dy)),
{
    let child = parent.child(dx, dy);
    lemma_child_parent(parent, dx, dy);
    if covers(wrap, child, other_wrap, other) {
        let up = (other.z - child.z) as nat;
        lemma_ancestor_split(other, up, 1);
        assert(covers(wrap, parent, other_wrap, other));
    }
    if covers(other_wrap, other, wrap, child) {
        if other.z == child.z {
            lemma_ancestor_zero(child);
            assert(covers(wrap, parent, other_wrap, other));
        } else {
            let up = (parent.z - other.z) as nat;
            lemma_ancestor_split(child, 1, up);
            assert(covers(other_wrap, other, wrap, parent));
        }
    }
}

/// Two different children of a tile are apart.
proof fn lemma_siblings_apart(wrap: int, parent: TileCoord, i: nat, j: nat)
    requires
        i < 4,
        j < 4,
        i != j,
    ensures
        apart(wrap, parent.child(i % 2, i / 2), wrap, parent.child(j % 2, j / 2)),
{
    lemma_ancestor_zero(parent.child(i % 2, i / 2));
    lemma_ancestor_zero(parent.child(j % 2, j / 2));
}

/// The descent starts with nodes that are apart: one root in each world
/// copy.
pub proof fn lemma_start_apart(
    zoom: u32,
    min_zoom: Option<u32>,
    max_zoom: Option<u32>,
    top_down: bool,
    reparse_overscaled: bool,
    world_copies: bool,
)
    ensures
        CoverState::start(
            zoom,
            min_zoom,
            max_zoom,
            top_down,
            reparse_overscaled,
            world_copies,
        ).all_apart(),
{
}

/// A step keeps the nodes on the stack and the picked tiles apart.
pub proof fn lemma_step_apart(
    state: CoverState,
    intersection: IntersectionType,
    longest_dim: u64,
    distance: u64,
)
    requires
        state.wf(),
        state.all_apart(),
    ensures
        state.step(intersection, longest_dim, distance).all_apart(),
{
    let after = state.step(intersection, longest_dim, distance);
    if state.stack.len() > 0 {
        let top = state.stack.len() - 1;
        let node = state.stack[top];
        let rest = state.stack.drop_last();
        assert(node.wf(state.z));
        if !node.fully_visible && intersection == IntersectionType::NoIntersection {
            assert(after.stack == rest);
            assert(after.leaves == state.leaves);
            assert forall|i: int, j: int|
                #![trigger after.stack[i], after.stack[j]]
                0 <= i < j < after.stack.len() implies apart(
                after.stack[i].wrap as int,
                after.stack[i].coord(),
                after.stack[j].wrap as int,
                after.stack[j].coord(),
            ) by {
                assert(after.stack[i] == state.stack[i] && after.stack[j] == state.stack[j]);
            }
            assert forall|i: int, j: int|
                #![trigger after.stack[i], after.leaves[j]]
                0 <= i < after.stack.len() && 0 <= j < after.leaves.len() implies apart(
                after.stack[i].wrap as int,
                after.stack[i].coord(),
                after.leaves[j].tile.wrap,
                after.leaves[j].tile.canonical,
            ) by {
                assert(after.stack[i] == state.stack[i] && after.leaves[j] == state.leaves[j]);
            }
        } else if state.picks(node, longest_dim) {
            let count = state.leaves.len() as int;
            assert(after.stack == rest);
            assert(after.leaves[count].tile.wrap == node.wrap);
            assert(after.leaves[count].tile.canonical == node.coord());
            assert forall|i: int, j: int|
                #![trigger after.stack[i], after.stack[j]]
                0 <= i < j < after.stack.len() implies apart(
                after.stack[i].wrap as int,
                after.stack[i].coord(),
                after.stack[j].wrap as int,
                after.stack[j].coord(),
            ) by {
                assert(after.stack[i] == state.stack[i] && after.stack[j] == state.stack[j]);
            }
            assert forall|i: int, j: int|
                #![trigger after.leaves[i], after.leaves[j]]
                0 <= i < j < after.leaves.len() implies apart(
                after.leaves[i].tile.wrap,
                after.leaves[i].tile.canonical,
                after.leaves[j].tile.wrap,
                after.leaves[j].tile.canonical,
            ) by {
                assert(after.leaves[i] == state.leaves[i]);
                if j < count {
                    assert(after.leaves[j] == state.leaves[j]);
                } else {
                    assert(apart(
                        state.stack[top].wrap as int,
                        state.stack[top].coord(),
                        state.leaves[i].tile.wrap,
                        state.leaves[i].tile.canonical,
                    ));
                }
            }
            assert forall|i: int, j: int|
                #![trigger after.stack[i], after.leaves[j]]
                0 <= i < after.stack.len() && 0 <= j < after.leaves.len() implies apart(
                after.stack[i].wrap as int,
                after.stack[i].coord(),
                after.leaves[j].tile.wrap,
                after.leaves[j].tile.canonical,
            ) by {
                assert(after.stack[i] == state.stack[i]);
                if j < count {
                    assert(after.leaves[j] == state.leaves[j]);
                } else {
                    assert(apart(
                        state.stack[i].wrap as int,
                        state.stack[i].coord(),
                        state.stack[top].wrap as int,
                        state.stack[top].coord(),
                    ));
                }
            }
        } else {
            let visible = node.fully_visible || intersection == IntersectionType::Inside;
            let base = rest.len() as int;
            assert(after.leaves == state.leaves);
            assert(after.stack.len() == base + 4);
            assert forall|k: int| 0 <= k < 4 implies {
                &&& (#[trigger] after.stack[base + k]).wrap == node.wrap
                &&& after.stack[base + k].coord() == node.coord().child(
                    (k % 2) as nat,
                    (k / 2) as nat,
                )
            } by {
                lemma_child_wf(node, state.z, k as nat, visible);
                assert(after.stack[base + k] == node.spec_child(k as nat, visible));
            }
            assert forall|i: int| 0 <= i < base implies #[trigger] after.stack[i]
                == state.stack[i] by {}
            assert forall|i: int, j: int|
                #![trigger after.stack[i], after.stack[j]]
                0 <= i < j < after.stack.len() implies apart(
                after.stack[i].wrap as int,
                after.stack[i].coord(),
                after.stack[j].wrap as int,
                after.stack[j].coord(),
            ) by {
                if j < base {
                    assert(after.stack[i] == state.stack[i] && after.stack[j] == state.stack[j]);
                } else if i < base {
                    let k = j - base;
                    assert(after.stack[i] == state.stack[i]);
                    assert(after.stack[base + k].wrap == node.wrap);
                    assert(apart(
                        state.stack[i].wrap as int,
                        state.stack[i].coord(),
                        state.stack[top].wrap as int,
                        state.stack[top].coord(),
                    ));
                    lemma_child_apart(
                        node.wrap as int,
                        node.coord(),
                        (k % 2) as nat,
                        (k / 2) as nat,
                        state.stack[i].wrap as int,
                        state.stack[i].coord(),
                    );
                } else {
                    let a = i - base;
                    let b = j - base;
                    assert(after.stack[base + a].wrap == node.wrap);
                    assert(after.stack[base + b].wrap == node.wrap);
                    lemma_siblings_apart(node.wrap as int, node.coord(), a as nat, b as nat);
                }
            }
            assert forall|i: int, j: int|
                #![trigger after.stack[i], after.leaves[j]]
                0 <= i < after.stack.len() && 0 <= j < after.leaves.len() implies apart(
                after.stack[i].wrap as int,
                after.stack[i].coord(),
                after.leaves[j].tile.wrap,
                after.leaves[j].tile.canonical,
            ) by {
                if i < base {
                    assert(after.stack[i] == state.stack[i]);
                    assert(after.leaves[j] == state.leaves[j]);
                } else {
                    let k = i - base;
                    assert(after.stack[base + k].wrap == node.wrap);
                    assert(apart(
                        state.stack[top].wrap as int,
                        state.stack[top].coord(),
                        state.leaves[j].tile.wrap,
                        state.leaves[j].tile.canonical,
                    ));
                    lemma_child_apart(
                        node.wrap as int,
                        node.coord(),
                        (k % 2) as nat,
                        (k / 2) as nat,
                        state.leaves[j].tile.wrap,
                        state.leaves[j].tile.canonical,
                    );
                }
            }
        }
    }
}

/// Where the picked tiles are apart, a descent gives no tile twice: any two
/// of its tiles differ in world copy, zoom, column or row.
pub proof fn lemma_tiles_distinct(state: CoverState)
    requires
        state.all_apart(),
    ensures
        forall|i: int, j: int|
            #![trigger state.tiles()[i], state.tiles()[j]]
            0 <= i < j < state.tiles().len() ==> state.tiles()[i].wrap != state.tiles()[j].wrap
                || state.tiles()[i].canonical != state.tiles()[j].canonical,
{
    lemma_order_is_permutation(state.distances());
    let order = order_by_key(state.distances());
    assert forall|i: int, j: int|
        #![trigger state.tiles()[i], state.tiles()[j]]
        0 <= i < j < state.tiles().len() implies state.tiles()[i].wrap != state.tiles()[j].wrap
        || state.tiles()[i].canonical != state.tiles()[j].canonical by {
        let a = order[i];
        let b = order[j];
        assert(a != b);
        lemma_ancestor_zero(state.leaves[a].tile.canonical);
        if a < b {
            assert(apart(
                state.leaves[a].tile.wrap,
                state.leaves[a].tile.canonical,
                state.leaves[b].tile.wrap,
                state.leaves[b].tile.canonical,
            ));
        } else {
            assert(apart(
                state.leaves[b].tile.wrap,
                state.leaves[b].tile.canonical,
                state.leaves[a].tile.wrap,
                state.leaves[a].tile.canonical,
            ));
        }
    }
}

/// A picked tile with its measure of distance.
#[derive(Debug)]
struct Leaf {
    id: OverscaledTileId,
    distance: u64,
}

/// A descent through the quadtree that picks the tiles covering a view.
#[derive(Debug)]
pub struct TileCover {
    z: u32,
    min_zoom: u32,
    overscaled_z: u32,
    world_copies: bool,
    stack: VecDeque<RootTile>,
    leaves: Vec<Leaf>,
}

impl View for TileCover {
    type V = CoverState;

    closed spec fn view(&self) -> CoverState {
        CoverState {
            z: self.z as nat,
            min_zoom: self.min_zoom as nat,
            overscaled_z: self.overscaled_z as nat,
            world_copies: self.world_copies,
            stack: self.stack@,
            leaves: Seq::new(
                self.leaves@.len(),
                |i: int| LeafModel { tile: self.leaves@[i].id@, distance: self.leaves@[i].distance },
            ),
        }
    }
}

impl TileCover {
    /// The ids of the picked tiles are well formed.
    pub closed spec fn ids_wf(&self) -> bool {
        forall|i: int| 0 <= i < self.leaves@.len() ==> (#[trigger] self.leaves@[i]).id.wf()
    }

    /// The state is well formed, no two of its nodes and picked tiles show
    /// the same part of the world, and the ids of the picked tiles are well
    /// formed.
    pub open spec fn wf(&self) -> bool {
        &&& self@.wf()
        &&& self@.all_apart()
        &&& self.ids_wf()
    }

    /// Starts the descent for a view of zoom `zoom`, over a source with
    /// tiles from `min_zoom` to `max_zoom`.
    ///
    /// `top_down` says that the view is seen from nearly straight above and
    /// without padding at the top, so that far tiles need no coarser zoom.
    pub fn new(
        zoom: u32,
        min_zoom: Option<u32>,
        max_zoom: Option<u32>,
        top_down: bool,
        reparse_overscaled: bool,
        render_world_copies: bool,
    ) -> (result: Self)
        requires
            !below_floor(zoom, min_zoom) ==> target_zoom(zoom, max_zoom) <= 25,
        ensures
            result.wf(),
            result@ == CoverState::start(
                zoom,
                min_zoom,
                max_zoom,
                top_down,
                reparse_overscaled,
                render_world_copies,
            ),
    {
        proof {
            lemma_start_wf(
                zoom,
                min_zoom,
                max_zoom,
                top_down,
                reparse_overscaled,
                render_world_copies,
            );
            lemma_start_apart(
                zoom,
                min_zoom,
                max_zoom,
                top_down,
                reparse_overscaled,
                render_world_copies,
            );
        }
        let mut z: u32 = zoom;
        let actual_zoom: u32 = z;
        if let Some(min) = min_zoom {
            if z < min {
                let empty = Self {
                    z: 0,
                    min_zoom: 0,
                    overscaled_z: 0,
                    world_copies: render_world_copies,
                    stack: VecDeque::new(),
                    leaves: Vec::new(),
                };
                assert(empty@.stack =~= Seq::empty());
                assert(empty@.leaves =~= Seq::empty());
                return empty;
            }
        }
        if let Some(max) = max_zoom {
            if z > max {
                z = max;
            }
        }
        let num_tiles: u32 = pow2_u64(z) as u32;
        let mut descent_floor: u32 = match min_zoom {
            Some(min) => min,
            None => 0,
        };
        if top_down {
            descent_floor = z;
        }
        let mut stack: VecDeque<RootTile> = VecDeque::new();
        let overscaled_z: u32 = if reparse_overscaled {
            actual_zoom
        } else {
            z
        };
        if render_world_copies {
            let mut i: i32 = 1;
            while i < 4
                invariant
                    1 <= i <= 4,
                    stack@ =~= Seq::new(
                        2 * (i - 1) as nat,
                        |k: int|
                            RootTile::root(
                                if k % 2 == 0 {
                                    (-(k / 2) - 1) as i32
                                } else {
                                    (k / 2 + 1) as i32
                                },
                                num_tiles,
                            ),
                    ),
                decreases 4 - i,
            {
                stack.push_back(RootTile::new(-i, num_tiles));
                stack.push_back(RootTile::new(i, num_tiles));
                i += 1;
            }
        }
        stack.push_back(RootTile::new(0, num_tiles));
        let result = Self {
            z,
            min_zoom: descent_floor,
            overscaled_z,
            world_copies: render_world_copies,
            stack,
            leaves: Vec::new(),
        };
        assert(result@.leaves =~= Seq::empty());
        assert(result@.stack =~= CoverState::start(
            zoom,
            min_zoom,
            max_zoom,
            top_down,
            reparse_overscaled,
            render_world_copies,
        ).stack);
        result
    }

    /// The zoom of the tiles that cover the view.
    pub fn z(&self) -> (result: u32)
        ensures
            result == self@.z,
    {
        self.z
    }

    /// Whether the descent has come to its end.
    pub fn is_done(&self) -> (result: bool)
        ensures
            result == self@.done(),
    {
        self.stack.len() == 0
    }

    /// The node that the next step decides on.
    pub fn next(&self) -> (result: Option<RootTile>)
        ensures
            result == if self@.done() {
                None
            } else {
                Some(self@.stack.last())
            },
    {
        if self.stack.len() == 0 {
            None
        } else {
            Some(self.stack[self.stack.len() - 1])
        }
    }

    /// Takes one step: decides on the node on top of the stack, which was
    /// found to lie to the view volume as `intersection` says, at most
    /// `longest_dim` tiles from the centre of the view along an axis
    /// (rounded up), with `distance` as its measure of distance. At the end
    /// of the descent nothing is left to do.
    pub fn visit(&mut self, intersection: IntersectionType, longest_dim: u64, distance: u64)
        requires
            old(self).wf(),
        ensures
            final(self).wf(),
            final(self)@ == old(self)@.step(intersection, longest_dim, distance),
            !old(self)@.done() ==> final(self)@.work() < old(self)@.work(),
    {
        proof {
            lemma_step_wf(self@, intersection, longest_dim, distance);
            lemma_step_apart(self@, intersection, longest_dim, distance);
            if !self@.done() {
                lemma_step_work(self@, intersection, longest_dim, distance);
            }
        }
        let ghost before = self@;
        let ghost after = before.step(intersection, longest_dim, distance);
        let node = match self.stack.pop_back() {
            Some(node) => node,
            None => {
                assert(self@ =~= before);
                return ;
            },
        };
        assert(node == before.stack.last());
        assert(self.stack@ =~= before.stack.drop_last());
        assert(self@.leaves =~= before.leaves);
        assert(node.wf(self.z as nat));
        let mut fully_visible = node.fully_visible;
        if !fully_visible {
            match intersection {
                IntersectionType::NoIntersection => {
                    assert(self@ =~= after);
                    return ;
                },
                IntersectionType::Inside => {
                    fully_visible = true;
                },
                IntersectionType::Intersecting => {},
            }
        }
        let dist_to_split: u64 = 3 + pow2_u64(self.z - node.zoom) - 2;
        if node.zoom == self.z || (longest_dim > dist_to_split && node.zoom >= self.min_zoom) {
            let overscaled_z: u32 = if node.zoom == self.z {
                self.overscaled_z
            } else {
                node.zoom
            };
            let id = OverscaledTileId::new(overscaled_z, node.wrap, node.zoom, node.x, node.y);
            self.leaves.push(Leaf { id, distance });
            assert(self@.leaves =~= after.leaves);
            assert(self@ =~= after);
            return ;
        }
        proof {
            lemma_child_wf(node, self.z as nat, 0, fully_visible);
            lemma_pow2_bound(node.zoom as nat);
        }
        let mut i: usize = 0;
        while i < 4
            invariant
                i <= 4,
                node.aabb.splits(),
                node.zoom < u32::MAX,
                node.x <= 2147483647,
                node.y <= 2147483647,
                self.z == old(self).z,
                self.min_zoom == old(self).min_zoom,
                self.overscaled_z == old(self).overscaled_z,
                self.world_copies == old(self).world_copies,
                self.leaves == old(self).leaves,
                before.stack.len() >= 1,
                self.stack@.len() == before.stack.len() - 1 + i,
                forall|k: int|
                    0 <= k < before.stack.len() - 1 ==> self.stack@[k] == before.stack[k],
                forall|k: int|
                    before.stack.len() - 1 <= k < before.stack.len() - 1 + i ==> #[trigger] self.stack@[k]
                        == node.spec_child((k - (before.stack.len() - 1)) as nat, fully_visible),
            decreases 4 - i,
        {
            self.stack.push_back(node.child(i, fully_visible));
            i += 1;
        }
        assert(self@.stack =~= after.stack);
        assert(self@.leaves =~= after.leaves);
        assert(self@ =~= after);
    }

    /// Ends the descent and gives the picked tiles, nearest first; tiles of
    /// equal distance in the order in which they were picked. No tile is
    /// given twice.
    pub fn finish(self) -> (result: Vec<OverscaledTileId>)
        requires
            self.wf(),
        ensures
            result@.len() == self@.tiles().len(),
            forall|i: int|
                0 <= i < result@.len() ==> (#[trigger] result@[i]).wf() && result@[i]@
                    == self@.tiles()[i],
            forall|i: int, j: int|
                #![trigger result@[i], result@[j]]
                0 <= i < j < result@.len() ==> result@[i]@.wrap != result@[j]@.wrap
                    || result@[i]@.canonical != result@[j]@.canonical,
    {
        proof {
            lemma_tiles_distinct(self@);
        }
        let mut keys: Vec<u64> = Vec::new();
        let mut n: usize = 0;
        while n < self.leaves.len()
            invariant
                n <= self.leaves@.len(),
                keys@.len() == n,
                forall|k: int| 0 <= k < n ==> keys@[k] == self.leaves@[k].distance,
            decreases self.leaves@.len() - n,
        {
            keys.push(self.leaves[n].distance);
            n += 1;
        }
        assert(keys@ =~= self@.distances());
        let order = sorted_order(&keys);
        proof {
            lemma_order_is_permutation(keys@);
        }
        let mut tiles: Vec<OverscaledTileId> = Vec::new();
        let mut i: usize = 0;
        while i < order.len()
            invariant
                i <= order@.len(),
                order@.len() == self.leaves@.len(),
                keys@ == self@.distances(),
                self.wf(),
                tiles@.len() == i,
                forall|k: int|
                    0 <= k < order@.len() ==> #[trigger] order@[k] as int == order_by_key(keys@)[k],
                forall|k: int|
                    0 <= k < order@.len() ==> 0 <= #[trigger] order_by_key(keys@)[k]
                        < self.leaves@.len(),
                forall|k: int|
                    0 <= k < i ==> (#[trigger] tiles@[k]).wf() && tiles@[k]@ == self@.tiles()[k],
            decreases order@.len() - i,
        {
            let at: usize = order[i];
            assert(at as int == order_by_key(keys@)[i as int]);
            tiles.push(self.leaves[at].id.clone());
            i += 1;
        }
        proof {
            assert forall|i: int, j: int|
                #![trigger tiles@[i], tiles@[j]]
                0 <= i < j < tiles@.len() implies tiles@[i]@.wrap != tiles@[j]@.wrap
                || tiles@[i]@.canonical != tiles@[j]@.canonical by {
                assert(tiles@[i]@ == self@.tiles()[i] && tiles@[j]@ == self@.tiles()[j]);
            }
        }
        tiles
    }
}

} // verus!
