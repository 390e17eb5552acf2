//! Boxes in tile-index space, and how a box lies to the view volume.

use vstd::prelude::*;

verus! {

/// How a box lies to the view volume.
#[derive(Debug, Clone, Copy, PartialEq, Eq, Structural)]
pub enum IntersectionType {
    NoIntersection,
    Intersecting,
    Inside,
}

/// How a box lies to a view volume, from what was counted: for each
/// bounding plane the number of the box's corners on its inner side, and
/// for each axis whether the volume's corner points all lie to one side of
/// the box.
///
/// A plane with no corner inside puts the box outside. With all corners
/// inside all planes the box is inside. Else the box cuts the volume unless
/// an axis separates the two.
pub open spec fn intersection_of(
    inside: Seq<usize>,
    corners: usize,
    separated: Seq<bool>,
) -> IntersectionType {
    if exists|p: int| 0 <= p < inside.len() && inside[p] == 0 {
        IntersectionType::NoIntersection
    } else if forall|p: int| 0 <= p < inside.len() ==> inside[p] == corners {
        IntersectionType::Inside
    } else if exists|a: int| 0 <= a < separated.len() && separated[a] {
        IntersectionType::NoIntersection
    } else {
        IntersectionType::Intersecting
    }
}

/// Decides how a box lies to a view volume from the counts that the
/// corner and axis tests gave.
pub fn intersection_type(inside: &[usize], corners: usize, separated: &[bool]) -> (result:
    IntersectionType)
    ensures
        result == intersection_of(inside@, corners, separated@),
{
    let mut full_inside = true;
    let mut p: usize = 0;
    while p < inside.len()
        invariant
            p <= inside@.len(),
            forall|q: int| 0 <= q < p ==> inside@[q] != 0,
            full_inside <==> forall|q: int| 0 <= q < p ==> inside@[q] == corners,
        decreases inside@.len() - p,
    {
        if inside[p] == 0 {
            return IntersectionType::NoIntersection;
        } else if inside[p] != corners {
            full_inside = false;
        }
        p += 1;
    }
    if full_inside {
        return IntersectionType::Inside;
    }
    let mut a: usize = 0;
    while a < separated.len()
        invariant
            a <= separated@.len(),
            forall|b: int| 0 <= b < a ==> !separated@[b],
            forall|q: int| 0 <= q < inside@.len() ==> inside@[q] != 0,
            !(forall|q: int| 0 <= q < inside@.len() ==> inside@[q] == corners),
        decreases separated@.len() - a,
    {
        if separated[a] {
            assert(separated@[a as int]);
            return IntersectionType::NoIntersection;
        }
        a += 1;
    }
    IntersectionType::Intersecting
}

/// A box in tile-index space whose corners lie on whole tile indices. Its
/// height is always zero, so only columns and rows are kept.
#[derive(Debug, Clone, Copy, PartialEq, Eq, Structural)]
pub struct Aabb {
    pub min_x: i64,
    pub min_y: i64,
    pub max_x: i64,
    pub max_y: i64,
}

impl Aabb {
    /// The column halfway between the two sides.
    pub open spec fn center_x(self) -> int {
        self.min_x + (self.max_x - self.min_x) / 2
    }

    /// The row halfway between top and bottom.
    pub open spec fn center_y(self) -> int {
        self.min_y + (self.max_y - self.min_y) / 2
    }

    /// Both sides of the box are non-negative and even, so that its centre
    /// lies on whole tile indices.
    pub open spec fn splits(self) -> bool {
        &&& self.min_x <= self.max_x
        &&& self.min_y <= self.max_y
        &&& (self.max_x - self.min_x) % 2 == 0
        &&& (self.max_y - self.min_y) % 2 == 0
    }

    /// The quarter of this box with the given index: 0 and 2 lie in the
    /// left half, 1 and 3 in the right; 0 and 1 in the top half, 2 and 3 in
    /// the bottom.
    pub open spec fn spec_quadrant(self, index: nat) -> Aabb {
        Aabb {
            min_x: if index % 2 == 0 {
                self.min_x
            } else {
                self.center_x() as i64
            },
            min_y: if index < 2 {
                self.min_y
            } else {
                self.center_y() as i64
            },
            max_x: if index % 2 == 0 {
                self.center_x() as i64
            } else {
                self.max_x
            },
            max_y: if index < 2 {
                self.center_y() as i64
            } else {
                self.max_y
            },
        }
    }

    /// The box between the corners `(min_x, min_y)` and `(max_x, max_y)`.
    pub fn new(min_x: i64, min_y: i64, max_x: i64, max_y: i64) -> (result: Self)
        ensures
            result == (Aabb { min_x, min_y, max_x, max_y }),
    {
        Self { min_x, min_y, max_x, max_y }
    }

    /// The quarter of this box with the given index.
    pub fn quadrant(&self, index: usize) -> (result: Self)
        requires
            self.splits(),
        ensures
            result == self.spec_quadrant(index as nat),
    {
        let half_x: i128 = (self.max_x as i128 - self.min_x as i128) / 2;
        let half_y: i128 = (self.max_y as i128 - self.min_y as i128) / 2;
        let center_x: i64 = (self.min_x as i128 + half_x) as i64;
        let center_y: i64 = (self.min_y as i128 + half_y) as i64;
        let left = index % 2 == 0;
        let top = index < 2;
        Self {
            min_x: if left {
                self.min_x
            } else {
                center_x
            },
            min_y: if top {
                self.min_y
            } else {
                center_y
            },
            max_x: if left {
                center_x
            } else {
                self.max_x
            },
            max_y: if top {
                center_y
            } else {
                self.max_y
            },
        }
    }
}

} // verus!
