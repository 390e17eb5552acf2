use mapbox_maps::source::tile_id::calculate_key;
use mapbox_maps::source::{CanonicalTileId, OverscaledTileId, UnwrappedTileId};
use mapbox_maps::style_spec::Scheme;

#[test]
fn canonical_accessors_return_the_arguments() {
    let id = CanonicalTileId::new(3, 5, 7);
    assert_eq!(id.z(), 3);
    assert_eq!(id.x(), 5);
    assert_eq!(id.y(), 7);
}

#[test]
fn canonical_accepts_the_corners_of_every_grid() {
    for z in 0..=25u32 {
        let last = (1u32 << z) - 1;
        let first = CanonicalTileId::new(z, 0, 0);
        assert_eq!((first.z(), first.x(), first.y()), (z, 0, 0));
        let far = CanonicalTileId::new(z, last, last);
        assert_eq!((far.z(), far.x(), far.y()), (z, last, last));
    }
}

#[test]
fn canonical_key_is_position_zoom_zoom() {
    assert_eq!(CanonicalTileId::new(1, 1, 0).key(), "111");
    assert_eq!(CanonicalTileId::new(0, 0, 0).key(), "000");
}

#[test]
fn canonical_key_at_the_deepest_zoom_does_not_wrap_around() {
    let last = (1u32 << 25) - 1;
    assert_eq!(CanonicalTileId::new(25, last, last).key(), "b33j9ynrb3pp");
}

#[test]
fn canonical_equality_compares_zoom_column_row() {
    assert!(CanonicalTileId::new(2, 1, 3) == CanonicalTileId::new(2, 1, 3));
    assert!(CanonicalTileId::new(2, 1, 3) != CanonicalTileId::new(2, 3, 1));
    assert!(CanonicalTileId::new(2, 1, 3) != CanonicalTileId::new(3, 1, 3));
}

#[test]
fn canonical_text_is_zoom_column_row() {
    assert_eq!(CanonicalTileId::new(12, 655, 1583).to_string(), "12/655/1583");
}

#[test]
fn key_maps_world_copies_to_naturals() {
    // copy -2 has index 3: 256 * 3 + 16 * 9 + 3 = 915 = "pf" in base 36
    assert_eq!(calculate_key(-2, 5, 4, 3, 9), "pf45");
    assert_eq!(calculate_key(0, 5, 4, 3, 9), "4345");
    assert_eq!(calculate_key(3, 10, 10, 5, 7), "3r01xaa");
    assert_eq!(calculate_key(1, 16, 16, 65535, 65535), "5x3c5xbgg");
}

#[test]
fn key_of_the_farthest_world_copies() {
    let last = (1u32 << 25) - 1;
    assert_eq!(calculate_key(i32::MIN, 25, 25, last, last), "lvgb2h48s3p1xy4fpp");
    assert_eq!(calculate_key(i32::MAX, 40, 25, 0, 0), "lvgb2gi2l154mfi8p-14");
}

#[test]
fn rendering_zoom_of_two_digits_is_set_off() {
    assert_eq!(calculate_key(0, 35, 2, 1, 0), "12z");
    assert_eq!(calculate_key(0, 36, 2, 1, 0), "12-10");
    assert_eq!(calculate_key(0, 112, 2, 1, 0), "12-34");
    assert_eq!(calculate_key(0, u32::MAX, 0, 0, 0), "00-1z141z3");
}

#[test]
fn keys_differ_where_the_digits_are_the_same() {
    assert_eq!(calculate_key(0, 4, 3, 6, 4), "1234");
    assert_eq!(calculate_key(0, 112, 2, 1, 0), "12-34");
    assert_eq!(calculate_key(-5, 1, 1, 0, 0), "1011");
    assert_eq!(calculate_key(-1, 37, 0, 0, 0), "10-11");
    let near = OverscaledTileId::new(3, 0, 3, 5, 4);
    let far = OverscaledTileId::new(111, 0, 1, 1, 0);
    assert_eq!(near.wrapped().key(), "1133");
    assert_eq!(far.wrapped().key(), "11-33");
}

#[test]
fn keys_of_a_tile_over_all_rendering_zooms_differ() {
    let mut seen = std::collections::HashSet::new();
    for overscaled_z in 3..200 {
        for (x, y) in [(5, 4), (1, 0), (6, 4)] {
            assert!(seen.insert(calculate_key(0, overscaled_z, 3, x, y)));
        }
        assert!(seen.insert(calculate_key(0, overscaled_z, 1, 1, 0)));
        assert!(seen.insert(calculate_key(0, overscaled_z, 2, 1, 0)));
    }
}

#[test]
fn keys_differ_between_neighbours() {
    let a = OverscaledTileId::new(4, 0, 4, 3, 9).key();
    assert_ne!(a, OverscaledTileId::new(4, 0, 4, 4, 9).key());
    assert_ne!(a, OverscaledTileId::new(4, 0, 4, 3, 10).key());
    assert_ne!(a, OverscaledTileId::new(4, 1, 4, 3, 9).key());
    assert_ne!(a, OverscaledTileId::new(4, -1, 4, 3, 9).key());
    assert_ne!(a, OverscaledTileId::new(5, 0, 4, 3, 9).key());
}

#[test]
fn unwrapped_key_is_rendered_at_its_own_zoom() {
    let canonical = CanonicalTileId::new(4, 3, 9);
    let id = UnwrappedTileId::new(-2, &canonical);
    assert_eq!(id.wrap(), -2);
    assert!(*id.canonical() == canonical);
    assert_eq!(id.key(), "pf44");
}

#[test]
fn overscaled_accessors_return_the_arguments() {
    let id = OverscaledTileId::new(7, -1, 5, 17, 30);
    assert_eq!(id.overscaled_z(), 7);
    assert_eq!(id.wrap(), -1);
    assert_eq!(id.canonical().z(), 5);
    assert_eq!(id.canonical().x(), 17);
    assert_eq!(id.canonical().y(), 30);
    assert_eq!(id.key(), calculate_key(-1, 7, 5, 17, 30));
    assert_eq!(id.canonical().key(), calculate_key(0, 5, 5, 17, 30));
}

#[test]
fn overscaled_equality_compares_zoom_copy_and_tile() {
    let id = OverscaledTileId::new(5, 1, 4, 3, 9);
    assert!(id == OverscaledTileId::new(5, 1, 4, 3, 9));
    assert!(id == id.clone());
    assert!(id != OverscaledTileId::new(6, 1, 4, 3, 9));
    assert!(id != OverscaledTileId::new(5, 0, 4, 3, 9));
    assert!(id != OverscaledTileId::new(5, 1, 4, 3, 8));
}

#[test]
fn overscaled_text_is_rendering_zoom_column_row() {
    assert_eq!(OverscaledTileId::new(14, 2, 12, 655, 1583).to_string(), "14/655/1583");
}

#[test]
fn wrapped_forces_the_first_world_copy() {
    let id = OverscaledTileId::new(5, -2, 4, 3, 9);
    let w = id.wrapped();
    assert_eq!(w.wrap(), 0);
    assert_eq!(w.overscaled_z(), 5);
    assert_eq!(w.canonical().z(), 4);
    assert_eq!(w.canonical().x(), 3);
    assert_eq!(w.canonical().y(), 9);
    assert_eq!(w.key(), "4345");
    assert!(w == OverscaledTileId::new(5, 0, 4, 3, 9));
    assert!(w.wrapped() == w);
}

#[test]
fn wrapped_is_shared_by_all_world_copies() {
    let here = OverscaledTileId::new(9, 0, 9, 100, 200).wrapped();
    for wrap in -3..=3 {
        let there = OverscaledTileId::new(9, wrap, 9, 100, 200).wrapped();
        assert!(there == here);
        assert_eq!(there.key(), here.key());
    }
}

#[test]
fn children_below_the_source_zoom_are_the_four_quarters() {
    let id = OverscaledTileId::new(3, -1, 3, 5, 2);
    let children = id.children(14);
    assert_eq!(children.len(), 4);
    assert!(children[0] == OverscaledTileId::new(4, -1, 4, 10, 4));
    assert!(children[1] == OverscaledTileId::new(4, -1, 4, 11, 4));
    assert!(children[2] == OverscaledTileId::new(4, -1, 4, 10, 5));
    assert!(children[3] == OverscaledTileId::new(4, -1, 4, 11, 5));
    assert_eq!(children[3].key(), calculate_key(-1, 4, 4, 11, 5));
}

#[test]
fn children_at_the_source_zoom_are_the_tile_one_zoom_further() {
    let id = OverscaledTileId::new(14, 2, 14, 5, 2);
    let children = id.children(14);
    assert_eq!(children.len(), 1);
    assert!(children[0] == OverscaledTileId::new(15, 2, 14, 5, 2));
    let again = children[0].children(14);
    assert_eq!(again.len(), 1);
    assert!(again[0] == OverscaledTileId::new(16, 2, 14, 5, 2));
}

#[test]
fn children_go_by_the_canonical_zoom() {
    // rendered beyond its own zoom, but the source still has finer data
    let id = OverscaledTileId::new(6, 0, 3, 5, 2);
    let children = id.children(5);
    assert_eq!(children.len(), 4);
    assert!(children[0] == OverscaledTileId::new(4, 0, 4, 10, 4));
}

#[test]
fn scaled_to_a_coarser_zoom_shifts_column_and_row() {
    let id = OverscaledTileId::new(12, 1, 10, 1000, 513);
    let up = id.scaled_to(7);
    assert!(up == OverscaledTileId::new(7, 1, 7, 125, 64));
    assert_eq!(up.key(), calculate_key(1, 7, 7, 125, 64));
    assert!(id.scaled_to(0) == OverscaledTileId::new(0, 1, 0, 0, 0));
}

#[test]
fn scaled_to_a_zoom_above_the_data_keeps_the_tile() {
    let id = OverscaledTileId::new(12, 1, 10, 1000, 513);
    assert!(id.scaled_to(11) == OverscaledTileId::new(11, 1, 10, 1000, 513));
    assert!(id.scaled_to(12) == id);
}

#[test]
fn scaled_to_its_own_zoom_drops_the_overscale() {
    let id = OverscaledTileId::new(12, 1, 10, 1000, 513);
    assert!(id.scaled_to(10) == OverscaledTileId::new(10, 1, 10, 1000, 513));
}

#[test]
fn url_fills_the_placeholders() {
    let urls = vec!["https://a.example/{z}/{x}/{y}.pbf".to_string()];
    let id = CanonicalTileId::new(12, 655, 1583);
    assert_eq!(id.url(&urls, None), "https://a.example/12/655/1583.pbf");
    assert_eq!(id.url(&urls, Some(Scheme::XYZ)), "https://a.example/12/655/1583.pbf");
}

#[test]
fn url_counts_rows_from_the_bottom_under_tms() {
    let urls = vec!["https://a.example/{z}/{x}/{y}.pbf".to_string()];
    let id = CanonicalTileId::new(12, 655, 1583);
    // 4096 - 1583 - 1
    assert_eq!(id.url(&urls, Some(Scheme::TMS)), "https://a.example/12/655/2512.pbf");
    let top = CanonicalTileId::new(0, 0, 0);
    assert_eq!(top.url(&urls, Some(Scheme::TMS)), "https://a.example/0/0/0.pbf");
}

#[test]
fn url_prefix_is_two_hexadecimal_digits() {
    let urls = vec!["https://{prefix}.example/{z}/{x}/{y}".to_string()];
    // 655 % 16 = 15, 1583 % 16 = 15
    assert_eq!(CanonicalTileId::new(12, 655, 1583).url(&urls, None), "https://ff.example/12/655/1583");
    // 26 % 16 = 10, 3 % 16 = 3; the prefix takes the row as it is, also under TMS
    assert_eq!(
        CanonicalTileId::new(5, 26, 3).url(&urls, Some(Scheme::TMS)),
        "https://a3.example/5/26/28"
    );
}

#[test]
fn url_replaces_every_occurrence() {
    let urls = vec!["{x}{x}-{y}/{z}{y}".to_string()];
    assert_eq!(CanonicalTileId::new(4, 10, 7).url(&urls, None), "1010-7/47");
}

#[test]
fn url_spreads_tiles_over_the_templates() {
    let urls = vec!["a/{z}/{x}/{y}".to_string(), "b/{z}/{x}/{y}".to_string(), "c/{z}/{x}/{y}".to_string()];
    assert_eq!(CanonicalTileId::new(3, 1, 2).url(&urls, None), "a/3/1/2");
    assert_eq!(CanonicalTileId::new(3, 2, 2).url(&urls, None), "b/3/2/2");
    assert_eq!(CanonicalTileId::new(3, 2, 3).url(&urls, None), "c/3/2/3");
    assert_eq!(CanonicalTileId::new(3, 3, 3).url(&urls, None), "a/3/3/3");
}
