//! Lines along an axis that cut space in two.

use vstd::prelude::*;

use crate::kdtree::aabb::AABB;

verus! {

/// The two axes.
#[derive(Clone, Copy, Debug, PartialEq, Eq, Structural, Hash)]
pub enum Dimension {
    X,
    Y,
}

/// A line along one axis at which space is cut in two.
#[derive(Clone, Copy, Debug, PartialEq, Eq, Structural)]
pub struct Plane {
    pub dimension: Dimension,
    pub pos: i64,
}

impl Plane {
    /// The plane lies strictly between the two sides of `space` that it
    /// runs along.
    pub open spec fn cuts(&self, space: AABB) -> bool {
        match self.dimension {
            Dimension::X => space.min.x < self.pos < space.max.x,
            Dimension::Y => space.min.y < self.pos < space.max.y,
        }
    }

    /// The plane across `dimension` at `pos`.
    pub fn new(dimension: Dimension, pos: i64) -> (plane: Self)
        ensures
            plane.dimension == dimension,
            plane.pos == pos,
    {
        Plane { dimension, pos }
    }

    /// The plane across the x axis at `pos`.
    pub fn new_x(pos: i64) -> (plane: Self)
        ensures
            plane.dimension == Dimension::X,
            plane.pos == pos,
    {
        Plane::new(Dimension::X, pos)
    }

    /// The plane across the y axis at `pos`.
    pub fn new_y(pos: i64) -> (plane: Self)
        ensures
            plane.dimension == Dimension::Y,
            plane.pos == pos,
    {
        Plane::new(Dimension::Y, pos)
    }

    /// Tells whether the plane cuts `space` in two.
    pub fn is_cutting(&self, space: &AABB) -> (cutting: bool)
        ensures
            cutting == self.cuts(*space),
    {
        match self.dimension {
            Dimension::X => self.pos > space.min.x && self.pos < space.max.x,
            Dimension::Y => self.pos > space.min.y && self.pos < space.max.y,
        }
    }
}

} // verus!
