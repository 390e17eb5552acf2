use mapbox_maps::geo::{RootTile, TileCover};
use mapbox_maps::source::OverscaledTileId;
use mapbox_maps::util::aabb::{Aabb, IntersectionType};

/// Drives a descent for a view whose centre lies at `center` (in tiles of
/// the descent's zoom), with every box cutting the view volume.
fn cover(mut walk: TileCover, center: (f64, f64)) -> Vec<OverscaledTileId> {
    while let Some(node) = walk.next() {
        let px = center.0.min(node.aabb.max_x as f64).max(node.aabb.min_x as f64);
        let py = center.1.min(node.aabb.max_y as f64).max(node.aabb.min_y as f64);
        let longest = (px - center.0).abs().max((py - center.1).abs());
        let dx = center.0 - 0.5 - node.x as f64;
        let dy = center.1 - 0.5 - node.y as f64;
        let distance = dx * dx + dy * dy;
        walk.visit(IntersectionType::Intersecting, longest.ceil() as u64, distance.to_bits());
    }
    walk.finish()
}

fn tile(id: &OverscaledTileId) -> (u32, i32, u32, u32, u32) {
    (id.overscaled_z(), id.wrap(), id.canonical().z(), id.canonical().x(), id.canonical().y())
}

#[test]
fn root_spans_its_world_copy() {
    let root = RootTile::new(0, 8);
    assert_eq!(root.aabb, Aabb::new(0, 0, 8, 8));
    assert_eq!((root.zoom, root.x, root.y, root.wrap, root.fully_visible), (0, 0, 0, 0, false));
    assert_eq!(RootTile::new(-2, 8).aabb, Aabb::new(-16, 0, -8, 8));
    assert_eq!(RootTile::new(3, 8).aabb, Aabb::new(24, 0, 32, 8));
}

#[test]
fn child_is_a_quarter_of_its_parent() {
    let root = RootTile::new(-1, 4);
    let c = root.child(3, true);
    assert_eq!(c.aabb, Aabb::new(-2, 2, 0, 4));
    assert_eq!((c.zoom, c.x, c.y, c.wrap, c.fully_visible), (1, 1, 1, -1, true));
    let g = c.child(1, false);
    assert_eq!(g.aabb, Aabb::new(-1, 2, 0, 3));
    assert_eq!((g.zoom, g.x, g.y, g.wrap, g.fully_visible), (2, 3, 2, -1, false));
}

#[test]
fn flat_view_of_the_whole_world_takes_the_four_tiles_of_zoom_one() {
    // zoom 1.39 floors to 1; the centre of the world lies at (1, 1)
    let walk = TileCover::new(1, None, None, true, false, false);
    assert_eq!(walk.z(), 1);
    let tiles = cover(walk, (1.0, 1.0));
    let got: Vec<_> = tiles.iter().map(tile).collect();
    // all four are equally far: they come in the order in which they were picked
    assert_eq!(got, vec![(1, 0, 1, 1, 1), (1, 0, 1, 0, 1), (1, 0, 1, 1, 0), (1, 0, 1, 0, 0)]);
    assert!(tiles.iter().all(|t| t.wrap() == 0));
}

#[test]
fn nearest_tile_comes_first() {
    let walk = TileCover::new(2, None, None, true, false, false);
    let tiles = cover(walk, (2.6, 1.4));
    assert_eq!(tiles.len(), 16);
    assert_eq!(tile(&tiles[0]), (2, 0, 2, 2, 1));
    assert_eq!(tile(&tiles[15]), (2, 0, 2, 0, 3));
    let d = |t: &OverscaledTileId| {
        let dx = 2.6 - 0.5 - t.canonical().x() as f64;
        let dy = 1.4 - 0.5 - t.canonical().y() as f64;
        dx * dx + dy * dy
    };
    for pair in tiles.windows(2) {
        assert!(d(&pair[0]) <= d(&pair[1]));
    }
}

#[test]
fn view_below_the_least_zoom_is_covered_by_nothing() {
    let walk = TileCover::new(3, Some(4), Some(14), true, false, true);
    assert!(walk.is_done());
    assert!(walk.next().is_none());
    assert!(walk.finish().is_empty());
}

#[test]
fn view_at_the_least_zoom_is_covered() {
    let walk = TileCover::new(4, Some(4), Some(14), true, false, false);
    assert!(!walk.is_done());
    assert_eq!(walk.z(), 4);
}

#[test]
fn zoom_is_capped_by_the_source() {
    let walk = TileCover::new(16, Some(0), Some(2), true, false, false);
    assert_eq!(walk.z(), 2);
    let tiles = cover(walk, (2.0, 2.0));
    assert_eq!(tiles.len(), 16);
    assert!(tiles.iter().all(|t| t.overscaled_z() == 2 && t.canonical().z() == 2));
}

#[test]
fn reparse_overscaled_reports_the_uncapped_zoom() {
    let walk = TileCover::new(16, Some(0), Some(2), true, true, false);
    assert_eq!(walk.z(), 2);
    let tiles = cover(walk, (2.0, 2.0));
    assert_eq!(tiles.len(), 16);
    assert!(tiles.iter().all(|t| t.overscaled_z() == 16 && t.canonical().z() == 2));
}

#[test]
fn descent_starts_with_the_first_world_on_top() {
    let mut walk = TileCover::new(1, None, None, true, false, true);
    let mut wraps = Vec::new();
    while let Some(node) = walk.next() {
        assert_eq!((node.zoom, node.x, node.y), (0, 0, 0));
        assert_eq!(node.aabb, Aabb::new(2 * node.wrap as i64, 0, 2 * node.wrap as i64 + 2, 2));
        wraps.push(node.wrap);
        walk.visit(IntersectionType::NoIntersection, 0, 0);
    }
    assert_eq!(wraps, vec![0, 3, -3, 2, -2, 1, -1]);
    assert!(walk.finish().is_empty());
}

#[test]
fn world_copies_are_covered_when_asked_for() {
    let walk = TileCover::new(0, None, None, true, false, true);
    let tiles = cover(walk, (0.5, 0.5));
    let got: Vec<_> = tiles.iter().map(tile).collect();
    // every root has column 0 and row 0, so all are equally far
    assert_eq!(
        got,
        vec![
            (0, 0, 0, 0, 0),
            (0, 3, 0, 0, 0),
            (0, -3, 0, 0, 0),
            (0, 2, 0, 0, 0),
            (0, -2, 0, 0, 0),
            (0, 1, 0, 0, 0),
            (0, -1, 0, 0, 0)
        ]
    );
}

#[test]
fn box_outside_the_view_is_dropped_with_all_below_it() {
    let mut walk = TileCover::new(2, None, None, true, false, false);
    // the root cuts the view volume
    walk.visit(IntersectionType::Intersecting, 0, 0);
    // its lower right quarter lies outside
    let node = walk.next().unwrap();
    assert_eq!((node.zoom, node.x, node.y), (1, 1, 1));
    walk.visit(IntersectionType::NoIntersection, 0, 0);
    let tiles = cover(walk, (0.0, 0.0));
    assert_eq!(tiles.len(), 12);
    assert!(tiles.iter().all(|t| t.canonical().x() < 2 || t.canonical().y() < 2));
}

#[test]
fn box_inside_the_view_is_not_asked_again() {
    let mut walk = TileCover::new(2, None, None, true, false, false);
    walk.visit(IntersectionType::Inside, 0, 0);
    let mut seen = 0;
    while let Some(node) = walk.next() {
        assert!(node.fully_visible);
        // whatever is said of a box that is known to be visible is not heard
        walk.visit(IntersectionType::NoIntersection, 0, seen);
        seen += 1;
    }
    assert_eq!(seen, 20);
    assert_eq!(walk.finish().len(), 16);
}

#[test]
fn far_tiles_stand_for_their_descendants_in_a_pitched_view() {
    // zoom 3, not seen from above: a node of zoom 1 is picked where it lies
    // more than 3 + 2^2 - 2 = 5 tiles from the centre
    let mut walk = TileCover::new(3, None, None, false, false, false);
    walk.visit(IntersectionType::Intersecting, 0, 0);
    let node = walk.next().unwrap();
    assert_eq!((node.zoom, node.x, node.y), (1, 1, 1));
    walk.visit(IntersectionType::Intersecting, 6, 70);
    let node = walk.next().unwrap();
    assert_eq!((node.zoom, node.x, node.y), (1, 0, 1));
    // five tiles are not far enough
    walk.visit(IntersectionType::Intersecting, 5, 60);
    let node = walk.next().unwrap();
    assert_eq!((node.zoom, node.x, node.y), (2, 1, 3));
    // at zoom 2 the bound is 3 + 2^1 - 2 = 3
    walk.visit(IntersectionType::Intersecting, 4, 50);
    let node = walk.next().unwrap();
    assert_eq!((node.zoom, node.x, node.y), (2, 0, 3));
    walk.visit(IntersectionType::Intersecting, 3, 40);
    let node = walk.next().unwrap();
    assert_eq!((node.zoom, node.x, node.y), (3, 1, 7));
    walk.visit(IntersectionType::Intersecting, 100, 30);
    while walk.next().is_some() {
        walk.visit(IntersectionType::NoIntersection, 0, 0);
    }
    let got: Vec<_> = walk.finish().iter().map(tile).collect();
    assert_eq!(got, vec![(3, 0, 3, 1, 7), (2, 0, 2, 1, 3), (1, 0, 1, 1, 1)]);
}

#[test]
fn far_tiles_above_the_least_zoom_are_split() {
    let mut walk = TileCover::new(3, Some(2), None, false, false, false);
    walk.visit(IntersectionType::Intersecting, 1000, 0);
    let node = walk.next().unwrap();
    assert_eq!(node.zoom, 1);
    // far enough, but coarser than the least zoom
    walk.visit(IntersectionType::Intersecting, 1000, 0);
    let node = walk.next().unwrap();
    assert_eq!((node.zoom, node.x, node.y), (2, 3, 3));
    walk.visit(IntersectionType::Intersecting, 1000, 0);
    let node = walk.next().unwrap();
    assert_eq!((node.zoom, node.x, node.y), (2, 2, 3));
    while walk.next().is_some() {
        walk.visit(IntersectionType::NoIntersection, 0, 0);
    }
    let got: Vec<_> = walk.finish().iter().map(tile).collect();
    assert_eq!(got, vec![(2, 0, 2, 3, 3)]);
}

#[test]
fn seen_from_above_only_the_zoom_of_the_view_is_picked() {
    let mut walk = TileCover::new(2, Some(0), None, true, false, false);
    walk.visit(IntersectionType::Intersecting, 1000, 0);
    let node = walk.next().unwrap();
    assert_eq!(node.zoom, 1);
    walk.visit(IntersectionType::Intersecting, 1000, 0);
    let node = walk.next().unwrap();
    assert_eq!(node.zoom, 2);
}

#[test]
fn a_step_after_the_end_changes_nothing() {
    let mut walk = TileCover::new(0, None, None, true, false, false);
    walk.visit(IntersectionType::Intersecting, 0, 7);
    assert!(walk.is_done());
    walk.visit(IntersectionType::Intersecting, 0, 3);
    walk.visit(IntersectionType::Inside, 9, 1);
    assert!(walk.is_done());
    let got: Vec<_> = walk.finish().iter().map(tile).collect();
    assert_eq!(got, vec![(0, 0, 0, 0, 0)]);
}

#[test]
fn the_deepest_zoom_can_be_reached() {
    let mut walk = TileCover::new(30, None, Some(25), true, true, false);
    assert_eq!(walk.z(), 25);
    let mut steps = 0;
    while let Some(node) = walk.next() {
        // follow the lower right child only
        let keep = node.x + 1 == 1u32 << node.zoom && node.y + 1 == 1u32 << node.zoom;
        let how = if keep { IntersectionType::Intersecting } else { IntersectionType::NoIntersection };
        walk.visit(how, 0, 0);
        steps += 1;
    }
    assert_eq!(steps, 1 + 4 * 25);
    let got: Vec<_> = walk.finish().iter().map(tile).collect();
    assert_eq!(got, vec![(30, 0, 25, (1 << 25) - 1, (1 << 25) - 1)]);
}

#[test]
fn no_tile_is_given_twice() {
    for (zoom, top_down, copies, center) in [
        (2, true, true, (1.3, 2.9)),
        (3, false, true, (0.2, 7.9)),
        (4, false, false, (15.5, 0.5)),
        (5, false, true, (16.0, 16.0)),
    ] {
        let walk = TileCover::new(zoom, None, None, top_down, false, copies);
        let tiles = cover(walk, center);
        let mut seen = std::collections::HashSet::new();
        for t in &tiles {
            assert!(seen.insert((t.wrap(), t.canonical().z(), t.canonical().x(), t.canonical().y())));
        }
        assert!(!tiles.is_empty());
    }
}

#[test]
fn picked_tiles_do_not_overlap() {
    let walk = TileCover::new(5, None, None, false, false, true);
    let tiles = cover(walk, (16.0, 16.0));
    assert!(tiles.iter().any(|t| t.canonical().z() < 5));
    for a in &tiles {
        for b in &tiles {
            let (ca, cb) = (a.canonical(), b.canonical());
            if a.wrap() == b.wrap() && ca.z() < cb.z() {
                let up = cb.z() - ca.z();
                assert!((cb.x() >> up, cb.y() >> up) != (ca.x(), ca.y()));
            }
        }
    }
}
