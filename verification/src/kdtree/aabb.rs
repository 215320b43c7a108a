//! Axis-aligned bounding boxes.

use vstd::prelude::*;

use crate::dto::Point2D;

verus! {

/// An axis-aligned bounding box, given by its least and its greatest
/// corner. A box whose least corner is not below its greatest in both
/// coordinates holds no point.
#[derive(Clone, Copy, Debug, PartialEq, Eq, Structural)]
pub struct AABB {
    /// Minimum position
    pub min: Point2D,
    /// Maximum position
    pub max: Point2D,
}

impl Default for AABB {
    fn default() -> (aabb: Self)
        ensures
            aabb.is_empty(),
    {
        Self::empty()
    }
}

impl AABB {
    /// The point lies in the box, its edges included.
    pub open spec fn contains(&self, p: Point2D) -> bool {
        &&& self.min.x <= p.x <= self.max.x
        &&& self.min.y <= p.y <= self.max.y
    }

    /// The box holds no point.
    pub open spec fn is_empty(&self) -> bool {
        self.min.x > self.max.x || self.min.y > self.max.y
    }

    /// Every point of `other` lies in this box.
    pub open spec fn encloses(&self, other: AABB) -> bool {
        other.is_empty() || (self.min.x <= other.min.x && other.max.x <= self.max.x && self.min.y
            <= other.min.y && other.max.y <= self.max.y)
    }

    /// The box between two corners.
    pub fn new(min: Point2D, max: Point2D) -> (aabb: Self)
        ensures
            aabb.min == min,
            aabb.max == max,
    {
        Self { min, max }
    }

    /// The box that holds no point and leaves every box unchanged that it
    /// is merged into.
    pub fn empty() -> (aabb: Self)
        ensures
            aabb.is_empty(),
            aabb.min == (Point2D { x: i64::MAX, y: i64::MAX }),
            aabb.max == (Point2D { x: i64::MIN, y: i64::MIN }),
            forall|p: Point2D| !aabb.contains(p),
    {
        Self::new(Point2D { x: i64::MAX, y: i64::MAX }, Point2D { x: i64::MIN, y: i64::MIN })
    }

    /// The area of the box.
    pub open spec fn spec_area(&self) -> int {
        (self.max.x - self.min.x) * (self.max.y - self.min.y)
    }

    /// The area of a box that is not empty.
    pub fn area(&self) -> (area: u64)
        requires
            self.min.wf(),
            self.max.wf(),
            !self.is_empty(),
        ensures
            area == self.spec_area(),
            area <= 4 * crate::dto::COORD_LIMIT * crate::dto::COORD_LIMIT,
    {
        let dx: u64 = (self.max.x - self.min.x) as u64;
        let dy: u64 = (self.max.y - self.min.y) as u64;
        proof {
            crate::geometry::lemma_product_bound(
                dx as int,
                dy as int,
                2 * crate::dto::COORD_LIMIT,
                2 * crate::dto::COORD_LIMIT,
            );
            assert(dx * dy >= 0) by (nonlinear_arith)
                requires
                    dx >= 0,
                    dy >= 0,
            ;
        }
        dx * dy
    }

    /// Twice the area of a box that is not empty.
    pub fn surface(&self) -> (surface: u64)
        requires
            self.min.wf(),
            self.max.wf(),
            !self.is_empty(),
        ensures
            surface == 2 * self.spec_area(),
    {
        2 * self.area()
    }

    /// Grows this box to the least one that holds `other` as well.
    pub fn merge(&mut self, other: &Self)
        ensures
            final(self).min.x == if old(self).min.x <= other.min.x {
                old(self).min.x
            } else {
                other.min.x
            },
            final(self).min.y == if old(self).min.y <= other.min.y {
                old(self).min.y
            } else {
                other.min.y
            },
            final(self).max.x == if old(self).max.x >= other.max.x {
                old(self).max.x
            } else {
                other.max.x
            },
            final(self).max.y == if old(self).max.y >= other.max.y {
                old(self).max.y
            } else {
                other.max.y
            },
            forall|p: Point2D|
                old(self).contains(p) || other.contains(p) ==> #[trigger] final(self).contains(p),
            final(self).encloses(*old(self)),
            final(self).encloses(*other),
    {
        let min_x = if self.min.x <= other.min.x {
            self.min.x
        } else {
            other.min.x
        };
        let min_y = if self.min.y <= other.min.y {
            self.min.y
        } else {
            other.min.y
        };
        let max_x = if self.max.x >= other.max.x {
            self.max.x
        } else {
            other.max.x
        };
        let max_y = if self.max.y >= other.max.y {
            self.max.y
        } else {
            other.max.y
        };
        self.min = Point2D { x: min_x, y: min_y };
        self.max = Point2D { x: max_x, y: max_y };
    }
}

/// What has a bounding box.
pub trait Bounded {
    /// The shape is such that its box can be computed.
    spec fn has_bound(&self) -> bool;

    /// Every point of the shape lies in this box.
    spec fn bounding_box(&self) -> AABB;

    /// The bounding box of the shape.
    fn bound(&self) -> (aabb: AABB)
        requires
            self.has_bound(),
        ensures
            aabb == self.bounding_box(),
    ;
}

impl Bounded for AABB {
    open spec fn has_bound(&self) -> bool {
        true
    }

    open spec fn bounding_box(&self) -> AABB {
        *self
    }

    fn bound(&self) -> (aabb: AABB) {
        *self
    }
}

} // verus!
