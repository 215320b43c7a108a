//! The solvers, and what they work on and hand out.

use vstd::prelude::*;

pub mod annealer;
pub mod greedy;
pub mod mix;
pub mod vol10;

use crate::dto::{Attendee, PillarDto, Point2D, ProblemDto, SolutionDto};
use crate::scoring::scorer::{placements_wf, score_of, volumes_view, volumes_wf, TOTAL_LIMIT};
use crate::scoring::Scorer;

verus! {

/// A problem under its name, with what was pruned from it beforehand.
#[derive(Clone, Debug, Default)]
pub struct Problem {
    pub id: String,
    pub data: ProblemDto,
    pub removed_attendees: Vec<Attendee>,
    pub removed_pillars: Vec<PillarDto>,
    pub scorer: Scorer,
}

impl Problem {
    /// Scores a placement for this problem with the scorer of the problem.
    pub fn score(&self, placements: &Vec<Option<Point2D>>, volumes: Option<&Vec<u32>>) -> (total:
        Score)
        requires
            self.data.wf(),
            placements@.len() == self.data.musicians@.len(),
            placements_wf(placements@),
            volumes_wf(volumes_view(volumes), self.data.musicians@.len() as int),
        ensures
            total.0 == score_of(self.data, placements@, volumes_view(volumes)),
            -TOTAL_LIMIT <= total.0 <= TOTAL_LIMIT,
    {
        self.scorer.score(&self.data, placements, volumes)
    }
}

/// The total happiness of the attendees.
#[derive(Clone, Copy, Debug, PartialEq, Eq, Structural)]
pub struct Score(pub i128);

impl Default for Score {
    fn default() -> (score: Self)
        ensures
            score.0 == 0,
    {
        Score(0)
    }
}

/// A placement with its score.
#[derive(Clone, Debug, Default)]
pub struct Solution {
    pub score: Score,
    pub data: SolutionDto,
}

} // verus!
