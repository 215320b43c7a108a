//! A tree over bounding boxes that tells which shapes a ray may meet.

pub mod aabb;
pub mod kdtree;
pub mod plane;
pub mod ray;
