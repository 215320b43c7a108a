//! A solver that chooses the volumes of a placement.

use vstd::prelude::*;

use crate::dto::{Point2D, ProblemDto, SolutionDto};
use crate::scoring::new_scorer::new_score;
use crate::scoring::scorer::{placements_wf, score_of, FACTOR_UNIT};
use crate::solvers::Problem;

verus! {

/// The volumes that are tried are the multiples of this, up to the
/// loudest.
pub const VOLUME_STEP: u32 = 500_000;

/// The number of the loudest volume that is tried.
pub const VOLUME_STEPS: u32 = 20;

/// The volume one for each of `n` musicians.
pub open spec fn unit_volumes(n: nat) -> Seq<u32> {
    Seq::new(n, |i: int| FACTOR_UNIT as u32)
}

/// With musician `idx` at volume `volume` and the others as in `volumes`,
/// the score is not below `floor`.
pub open spec fn keeps_score(
    problem: ProblemDto,
    placements: Seq<Option<Point2D>>,
    floor: int,
    volumes: Seq<u32>,
    idx: int,
    volume: u32,
) -> bool {
    score_of(problem, placements, Some(volumes.update(idx, volume))) >= floor
}

/// The loudest of the first `k + 1` volumes that are tried which keeps
/// the score from falling below `floor`, or the volume that musician `idx`
/// has if none does.
pub open spec fn loudest_kept(
    problem: ProblemDto,
    placements: Seq<Option<Point2D>>,
    floor: int,
    volumes: Seq<u32>,
    idx: int,
    k: int,
) -> u32
    decreases k + 1,
{
    if k < 0 {
        volumes[idx]
    } else if keeps_score(problem, placements, floor, volumes, idx, (k * VOLUME_STEP) as u32) {
        (k * VOLUME_STEP) as u32
    } else {
        loudest_kept(problem, placements, floor, volumes, idx, k - 1)
    }
}

/// The volumes after the first `n` musicians had theirs chosen in turn:
/// all start at one, and each musician gets the loudest volume that keeps
/// the score from falling below `floor`, with the volumes of the others as
/// they are by then.
pub open spec fn mixed_volumes(
    problem: ProblemDto,
    placements: Seq<Option<Point2D>>,
    floor: int,
    n: int,
) -> Seq<u32>
    decreases n,
{
    if n <= 0 {
        unit_volumes(placements.len())
    } else {
        let before = mixed_volumes(problem, placements, floor, n - 1);
        before.update(
            n - 1,
            loudest_kept(problem, placements, floor, before, n - 1, VOLUME_STEPS as int),
        )
    }
}

/// Chooses a volume for every musician of a placement such that the
/// score does not fall below what it is with every volume at one.
#[derive(Clone, Debug, Default)]
pub struct Mix {
    pub problem: Problem,
    pub solution: SolutionDto,
}

impl Mix {
    /// The name of the solver.
    pub fn name(&self) -> (name: String)
        ensures
            name@ == "mix"@,
    {
        "mix".to_string()
    }

    /// The solver holds a placement for its problem.
    pub open spec fn wf(&self) -> bool {
        &&& self.problem.data.wf()
        &&& self.solution.placements@.len() == self.problem.data.musicians@.len()
        &&& placements_wf(self.solution.placements@)
    }

    /// Takes the placement to work on, which must not be empty.
    pub fn initialize(&mut self, problem: Problem, solution: SolutionDto)
        requires
            solution.placements@.len() > 0,
        ensures
            final(self).problem == problem,
            final(self).solution == solution,
    {
        self.problem = problem;
        self.solution = solution;
    }

    /// Chooses the volumes and returns the placement with them, and that
    /// this is all there is to do.
    pub fn solve_step(&mut self) -> (step: (SolutionDto, bool))
        requires
            old(self).wf(),
        ensures
            *final(self) == *old(self),
            step.0.placements@ == old(self).solution.placements@,
            step.0.volumes.is_some(),
            step.0.volumes.unwrap()@ == mixed_volumes(
                old(self).problem.data,
                old(self).solution.placements@,
                score_of(
                    old(self).problem.data,
                    old(self).solution.placements@,
                    Some(unit_volumes(old(self).solution.placements@.len())),
                ),
                old(self).solution.placements@.len() as int,
            ),
            score_of(
                old(self).problem.data,
                old(self).solution.placements@,
                Some(step.0.volumes.unwrap()@),
            ) >= score_of(
                old(self).problem.data,
                old(self).solution.placements@,
                Some(unit_volumes(old(self).solution.placements@.len())),
            ),
            step.1,
    {
        let ghost data = self.problem.data;
        let ghost placements = self.solution.placements@;
        let len = self.solution.placements.len();
        let mut volumes: Vec<u32> = Vec::new();
        let mut i: usize = 0;
        while i < len
            invariant
                i <= len,
                volumes@.len() == i,
                forall|k: int| 0 <= k < i ==> #[trigger] volumes@[k] == FACTOR_UNIT as u32,
            decreases len - i,
        {
            volumes.push(1_000_000);
            i += 1;
        }
        assert(volumes@ =~= unit_volumes(placements.len()));
        let orig_score = new_score(&self.problem.data, &self.solution.placements, Some(&volumes));
        let ghost floor = orig_score.0 as int;
        let mut idx: usize = 0;
        while idx < len
            invariant
                idx <= len,
                len == placements.len(),
                *self == *old(self),
                self.wf(),
                data == self.problem.data,
                placements == self.solution.placements@,
                floor == orig_score.0,
                floor == score_of(data, placements, Some(unit_volumes(placements.len()))),
                volumes@.len() == len,
                volumes@ == mixed_volumes(data, placements, floor, idx as int),
                score_of(data, placements, Some(volumes@)) >= floor,
            decreases len - idx,
        {
            let ghost before = volumes@;
            let mut step: u32 = 0;
            assert(before.update(idx as int, before[idx as int]) =~= before);
            while step <= VOLUME_STEPS
                invariant
                    step <= VOLUME_STEPS + 1,
                    idx < len,
                    len == placements.len(),
                    *self == *old(self),
                    self.wf(),
                    data == self.problem.data,
                    placements == self.solution.placements@,
                    floor == orig_score.0,
                    before.len() == len,
                    volumes@ == before.update(
                        idx as int,
                        loudest_kept(data, placements, floor, before, idx as int, step - 1),
                    ),
                    score_of(data, placements, Some(volumes@)) >= floor,
                decreases VOLUME_STEPS + 1 - step,
            {
                let volume: u32 = step * VOLUME_STEP;
                let old_volume = volumes[idx];
                volumes.set(idx, volume);
                assert(volumes@ =~= before.update(idx as int, volume));
                let new_score = new_score(
                    &self.problem.data,
                    &self.solution.placements,
                    Some(&volumes),
                );
                if new_score.0 < orig_score.0 {
                    volumes.set(idx, old_volume);
                    assert(volumes@ =~= before.update(idx as int, old_volume));
                }
                step += 1;
            }
            idx += 1;
        }
        let placements = self.solution.placements.clone();
        assert(placements@ =~= self.solution.placements@);
        (SolutionDto { placements, volumes: Some(volumes) }, true)
    }
}

} // verus!
