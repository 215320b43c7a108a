//! A solver that turns every musician of a placement to full volume.

use vstd::prelude::*;

use crate::dto::SolutionDto;
use crate::scoring::scorer::MAX_VOLUME;
use crate::solvers::annealer::full_volumes;
use crate::solvers::Problem;

verus! {

/// Turns every musician of a placement to full volume.
#[derive(Clone, Debug, Default)]
pub struct Vol10 {
    pub problem: Problem,
    pub solution: SolutionDto,
}

impl Vol10 {
    /// The name of the solver.
    pub fn name(&self) -> (name: String)
        ensures
            name@ == "vol10"@,
    {
        "vol10".to_string()
    }

    /// Takes the placement to work on, which must not be empty.
    pub fn initialize(&mut self, problem: Problem, solution: SolutionDto)
        requires
            solution.placements@.len() > 0,
        ensures
            final(self).problem == problem,
            final(self).solution == solution,
    {
        self.problem = problem;
        self.solution = solution;
    }

    /// Returns the placement with every musician at full volume, and that
    /// this is all there is to do.
    pub fn solve_step(&mut self) -> (step: (SolutionDto, bool))
        ensures
            *final(self) == *old(self),
            step.0.placements@ == old(self).solution.placements@,
            step.0.volumes.is_some(),
            step.0.volumes.unwrap()@ == full_volumes(old(self).solution.placements@.len()),
            step.1,
    {
        let placements = self.solution.placements.clone();
        assert(placements@ =~= self.solution.placements@);
        let mut volumes: Vec<u32> = Vec::new();
        let mut i: usize = 0;
        while i < placements.len()
            invariant
                i <= placements@.len(),
                volumes@.len() == i,
                forall|k: int| 0 <= k < i ==> #[trigger] volumes@[k] == MAX_VOLUME,
            decreases placements@.len() - i,
        {
            volumes.push(MAX_VOLUME);
            i += 1;
        }
        assert(volumes@ =~= full_volumes(placements@.len()));
        (SolutionDto { placements, volumes: Some(volumes) }, true)
    }
}

} // verus!
