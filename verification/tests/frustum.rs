use mapbox_maps::util::aabb::{intersection_type, IntersectionType};

type V4 = [f64; 4];

/// The eight corners of the view volume in the tile indices of `zoom`, from
/// the inverse projection `m` (column by column).
fn frustum_points(m: &[f64; 16], world_size: f64, zoom: f64) -> Vec<V4> {
    let clip: [V4; 8] = [
        [-1.0, 1.0, -1.0, 1.0],
        [1.0, 1.0, -1.0, 1.0],
        [1.0, -1.0, -1.0, 1.0],
        [-1.0, -1.0, -1.0, 1.0],
        [-1.0, 1.0, 1.0, 1.0],
        [1.0, 1.0, 1.0, 1.0],
        [1.0, -1.0, 1.0, 1.0],
        [-1.0, -1.0, 1.0, 1.0],
    ];
    let scale = 2f64.powf(zoom);
    clip.iter()
        .map(|v| {
            let mut p = [0.0; 4];
            for row in 0..4 {
                p[row] = m[row] * v[0] + m[4 + row] * v[1] + m[8 + row] * v[2] + m[12 + row] * v[3];
            }
            let s = 1.0 / p[3] / world_size * scale;
            [p[0] * s, p[1] * s, p[2] * s, p[3] * s]
        })
        .collect()
}

/// The six planes that bound the view volume: near, far, left, right,
/// bottom, top. A point lies inside a plane where its product with the
/// plane is not negative.
fn frustum_planes(points: &[V4]) -> Vec<V4> {
    let corners: [[usize; 3]; 6] =
        [[0, 1, 2], [6, 5, 4], [0, 3, 7], [2, 1, 5], [3, 2, 6], [0, 4, 5]];
    corners
        .iter()
        .map(|c| {
            let (from, at, to) = (points[c[0]], points[c[1]], points[c[2]]);
            let a = [from[0] - at[0], from[1] - at[1], from[2] - at[2]];
            let b = [to[0] - at[0], to[1] - at[1], to[2] - at[2]];
            let n = [
                a[1] * b[2] - a[2] * b[1],
                a[2] * b[0] - a[0] * b[2],
                a[0] * b[1] - a[1] * b[0],
            ];
            let len = (n[0] * n[0] + n[1] * n[1] + n[2] * n[2]).sqrt();
            let n = [n[0] / len, n[1] / len, n[2] / len];
            let d = -(n[0] * at[0] + n[1] * at[1] + n[2] * at[2]);
            [n[0], n[1], n[2], d]
        })
        .collect()
}

/// How the flat box between `min` and `max` lies to the view volume.
fn intersects(min: [f64; 3], max: [f64; 3], points: &[V4], planes: &[V4]) -> IntersectionType {
    let corners: [V4; 4] = [
        [min[0], min[1], 0.0, 1.0],
        [max[0], min[1], 0.0, 1.0],
        [max[0], max[1], 0.0, 1.0],
        [min[0], max[1], 0.0, 1.0],
    ];
    let inside: Vec<usize> = planes
        .iter()
        .map(|p| {
            corners
                .iter()
                .filter(|c| p[0] * c[0] + p[1] * c[1] + p[2] * c[2] + p[3] * c[3] >= 0.0)
                .count()
        })
        .collect();
    let separated: Vec<bool> = (0..3)
        .map(|axis| {
            let mut proj_min = f64::MAX;
            let mut proj_max = f64::MIN;
            for point in points {
                let projected = point[axis] - min[axis];
                proj_min = proj_min.min(projected);
                proj_max = proj_max.max(projected);
            }
            proj_max < 0.0 || proj_min > max[axis] - min[axis]
        })
        .collect();
    intersection_type(&inside, corners.len(), &separated)
}

const INVERSE_PROJECTION: [f64; 16] = [
    0.637767812655705,
    0.0,
    0.0,
    0.0,
    0.0,
    -0.3333333333333333,
    0.0,
    0.0,
    -12.370410580904272,
    -12.37041058090427,
    -1103941.9728413473,
    -0.0184379424489534,
    12.701391466012076,
    12.701391466012076,
    1103646.603751624,
    0.01893126532384179,
];

const WORLD_SIZE: f64 = 1341.8428455509638;

#[test]
fn aabb_test() {
    let points = frustum_points(&INVERSE_PROJECTION, WORLD_SIZE, 1.0);
    let planes = frustum_planes(&points);
    assert_eq!(
        IntersectionType::Intersecting,
        intersects([0.0, 0.0, 0.0], [2.0, 2.0, 0.0], &points, &planes)
    );
}

#[test]
fn box_inside_the_view_volume() {
    let points = frustum_points(&INVERSE_PROJECTION, WORLD_SIZE, 1.0);
    let planes = frustum_planes(&points);
    assert_eq!(
        IntersectionType::Inside,
        intersects([0.5, 0.5, 0.0], [1.5, 1.5, 0.0], &points, &planes)
    );
}

#[test]
fn box_beside_the_view_volume() {
    let points = frustum_points(&INVERSE_PROJECTION, WORLD_SIZE, 1.0);
    let planes = frustum_planes(&points);
    assert_eq!(
        IntersectionType::NoIntersection,
        intersects([4.0, 0.0, 0.0], [6.0, 2.0, 0.0], &points, &planes)
    );
    assert_eq!(
        IntersectionType::NoIntersection,
        intersects([0.0, -4.0, 0.0], [2.0, -2.0, 0.0], &points, &planes)
    );
}

#[test]
fn box_around_the_view_volume() {
    let points = frustum_points(&INVERSE_PROJECTION, WORLD_SIZE, 1.0);
    let planes = frustum_planes(&points);
    assert_eq!(
        IntersectionType::Intersecting,
        intersects([-8.0, -8.0, 0.0], [8.0, 8.0, 0.0], &points, &planes)
    );
}
