use mapbox_maps::util::aabb::{intersection_type, Aabb, IntersectionType};
use mapbox_maps::util::sort::sorted_order;
use mapbox_maps::util::{pow2_u64, unique_id, IdGenerator};

#[test]
fn unique_ids_count_up_from_one() {
    let mut ids = IdGenerator::new();
    assert_eq!(unique_id(&mut ids), 1);
    assert_eq!(unique_id(&mut ids), 2);
    assert_eq!(unique_id(&mut ids), 3);
    let mut other = IdGenerator::new();
    assert_eq!(unique_id(&mut other), 1);
    assert_eq!(unique_id(&mut ids), 4);
}

#[test]
fn powers_of_two() {
    assert_eq!(pow2_u64(0), 1);
    assert_eq!(pow2_u64(1), 2);
    assert_eq!(pow2_u64(10), 1024);
    assert_eq!(pow2_u64(25), 33554432);
}

#[test]
fn quadrants_tile_the_box() {
    let b = Aabb::new(-4, 0, 4, 8);
    assert_eq!(b.quadrant(0), Aabb::new(-4, 0, 0, 4));
    assert_eq!(b.quadrant(1), Aabb::new(0, 0, 4, 4));
    assert_eq!(b.quadrant(2), Aabb::new(-4, 4, 0, 8));
    assert_eq!(b.quadrant(3), Aabb::new(0, 4, 4, 8));
}

#[test]
fn quadrant_of_a_negative_box() {
    let b = Aabb::new(-24, -6, -16, -2);
    assert_eq!(b.quadrant(3), Aabb::new(-20, -4, -16, -2));
    assert_eq!(b.quadrant(0), Aabb::new(-24, -6, -20, -4));
}

#[test]
fn quadrant_of_a_box_as_wide_as_the_numbers_go() {
    let b = Aabb::new(i64::MIN, -2, i64::MAX - 1, 2);
    assert_eq!(b.quadrant(1), Aabb::new(-1, -2, i64::MAX - 1, 0));
}

#[test]
fn a_plane_with_no_corner_inside_puts_the_box_outside() {
    assert_eq!(
        intersection_type(&[4, 4, 0, 4, 4, 4], 4, &[false, false, false]),
        IntersectionType::NoIntersection
    );
    assert_eq!(
        intersection_type(&[0, 4, 4, 4, 4, 4], 4, &[false, false, false]),
        IntersectionType::NoIntersection
    );
    assert_eq!(
        intersection_type(&[2, 1, 3, 4, 4, 0], 4, &[false, false, false]),
        IntersectionType::NoIntersection
    );
}

#[test]
fn all_corners_inside_all_planes_put_the_box_inside() {
    assert_eq!(
        intersection_type(&[4, 4, 4, 4, 4, 4], 4, &[false, false, false]),
        IntersectionType::Inside
    );
    // the axes are not asked
    assert_eq!(
        intersection_type(&[4, 4, 4, 4, 4, 4], 4, &[true, true, true]),
        IntersectionType::Inside
    );
}

#[test]
fn a_separating_axis_puts_the_box_outside() {
    assert_eq!(
        intersection_type(&[4, 4, 2, 4, 4, 4], 4, &[false, true, false]),
        IntersectionType::NoIntersection
    );
    assert_eq!(
        intersection_type(&[1, 1, 1, 1, 1, 1], 4, &[false, false, true]),
        IntersectionType::NoIntersection
    );
}

#[test]
fn a_box_that_is_cut_intersects() {
    assert_eq!(
        intersection_type(&[4, 4, 2, 4, 4, 4], 4, &[false, false, false]),
        IntersectionType::Intersecting
    );
    assert_eq!(
        intersection_type(&[4, 4, 4, 4, 4, 3], 4, &[false, false, false]),
        IntersectionType::Intersecting
    );
}

#[test]
fn order_of_nothing_is_empty() {
    assert!(sorted_order(&vec![]).is_empty());
}

#[test]
fn order_sorts_by_key() {
    assert_eq!(sorted_order(&vec![30, 10, 20]), vec![1, 2, 0]);
    assert_eq!(sorted_order(&vec![1, 2, 3, 4]), vec![0, 1, 2, 3]);
    assert_eq!(sorted_order(&vec![4, 3, 2, 1]), vec![3, 2, 1, 0]);
    assert_eq!(sorted_order(&vec![u64::MAX, 0]), vec![1, 0]);
}

#[test]
fn order_keeps_equal_keys_in_place() {
    assert_eq!(sorted_order(&vec![5, 1, 5, 1, 5]), vec![1, 3, 0, 2, 4]);
    assert_eq!(sorted_order(&vec![7, 7, 7]), vec![0, 1, 2]);
}

#[test]
fn bits_of_distances_order_as_the_distances_do() {
    let distances = [2.5f64, 0.0, 0.5, 1e10, 0.5, 1e-300];
    let keys: Vec<u64> = distances.iter().map(|d| d.to_bits()).collect();
    assert_eq!(sorted_order(&keys), vec![1, 5, 2, 4, 0, 3]);
}
