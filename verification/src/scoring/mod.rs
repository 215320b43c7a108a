//! Scoring of placements.

use vstd::prelude::*;

pub mod impact_map;
pub mod new_scorer;
pub mod scorer;

use crate::dto::{Point2D, ProblemDto};
use crate::scoring::scorer::{placements_wf, score_of, volumes_view, volumes_wf, TOTAL_LIMIT};
use crate::solvers::Score;

verus! {

/// The two ways to score a placement. They give the same score: the first
/// looks at every obstacle for every line of sight, the second asks a tree
/// over the obstacles which of them may be in the way.
#[derive(Clone, Copy, Debug, PartialEq, Eq, Structural)]
pub enum Scorer {
    Legacy,
    New,
}

impl Default for Scorer {
    fn default() -> (scorer: Self)
        ensures
            scorer == Scorer::New,
    {
        Scorer::New
    }
}

impl Scorer {
    /// The name of the scorer.
    pub fn name(&self) -> (name: &'static str)
        ensures
            name@ == match self {
                Scorer::Legacy => "legacy"@,
                Scorer::New => "new"@,
            },
    {
        match self {
            Scorer::Legacy => "legacy",
            Scorer::New => "new",
        }
    }

    /// Scores a placement.
    pub fn score(
        &self,
        problem: &ProblemDto,
        placements: &Vec<Option<Point2D>>,
        volumes: Option<&Vec<u32>>,
    ) -> (total: Score)
        requires
            problem.wf(),
            placements@.len() == problem.musicians@.len(),
            placements_wf(placements@),
            volumes_wf(volumes_view(volumes), problem.musicians@.len() as int),
        ensures
            total.0 == score_of(*problem, placements@, volumes_view(volumes)),
            -TOTAL_LIMIT <= total.0 <= TOTAL_LIMIT,
    {
        match self {
            Scorer::Legacy => scorer::score(problem, placements, volumes),
            Scorer::New => new_scorer::new_score(problem, placements, volumes),
        }
    }
}

} // verus!
