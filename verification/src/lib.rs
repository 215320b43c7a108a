//! Places musicians on a stage so that the attendees around it are as
//! happy as can be.
//!
//! Every attendee awards every musician in sight an amount that falls
//! with the square of the distance and depends on the taste for the
//! instrument; a musician or a pillar in the line of sight hides the
//! musician behind it. The library scores placements, builds them greedily
//! with the help of impact maps, and improves them by annealing on a
//! lattice. Lengths are counted in whole steps, of which 512 make a unit,
//! and tastes in thousandths, so every score is exact.

pub mod collider;
pub mod common;
pub mod diamond_grid;
pub mod dto;
pub mod geometry;
pub mod kdtree;
pub mod scoring;
pub mod solvers;
