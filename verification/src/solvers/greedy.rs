//! The greedy solver: one musician at a time, each at the position that
//! promises most.

use std::collections::HashSet;
use vstd::prelude::*;

use crate::common::{
    close_to_any, grid_spacing, is_grid_of, is_invalid_position, lemma_grid_not_empty, near_any,
    outside_stage, too_close, Grid, SEPARATION_SQ, STAGE_MARGIN,
};
use crate::dto::{tastes_cover, Attendee, Instrument, Point2D, SolutionDto};
use crate::geometry::{dist2, lemma_dist2_symmetric};
use crate::scoring::impact_map::{
    best_invalidated, blocked_pairs, follows_placing, is_best, lemma_blocked_pairs_sum,
    lemma_position_score_initial, map_consistent, pair_impact_sum, position_score,
    scores_bounded, ImpactMap, PillarBlockageMap,
};
use crate::scoring::scorer::{placements_wf, score_of};
use crate::solvers::{Problem, Solution};

verus! {

broadcast use vstd::std_specs::hash::group_hash_axioms;

/// Some musician of instrument number `k` is not placed yet.
pub open spec fn waits(
    musicians: Seq<Instrument>,
    placements: Seq<Option<Point2D>>,
    k: int,
) -> bool {
    exists|i: int|
        0 <= i < musicians.len() && (#[trigger] placements[i]).is_none() && musicians[i].0 == k
}

/// Every attendee has a taste for each of the first `n` instruments.
pub open spec fn tastes_reach(attendees: Seq<Attendee>, n: int) -> bool {
    forall|a: int| 0 <= a < attendees.len() ==> (#[trigger] attendees[a]).tastes@.len() >= n
}

/// When a musician comes to stand at `new_pos`, a placed musician is near `p`
/// if one was before or the newcomer is.
pub proof fn lemma_near_any_after_placing(
    p: Point2D,
    before: Seq<Option<Point2D>>,
    musician: int,
    new_pos: Point2D,
)
    requires
        0 <= musician < before.len(),
        before[musician].is_none(),
    ensures
        near_any(p, before.update(musician, Some(new_pos)), before.len() as int) == (near_any(
            p,
            before,
            before.len() as int,
        ) || dist2(p, new_pos) <= SEPARATION_SQ),
{
    let after = before.update(musician, Some(new_pos));
    if near_any(p, before, before.len() as int) {
        let j = choose|j: int|
            0 <= j < before.len() && (#[trigger] before[j]).is_some() && dist2(
                p,
                before[j].unwrap(),
            ) <= SEPARATION_SQ;
        assert(after[j] == before[j]);
        assert(after[j].is_some());
    }
    if dist2(p, new_pos) <= SEPARATION_SQ {
        assert(after[musician].is_some());
    }
    if near_any(p, after, before.len() as int) {
        let j = choose|j: int|
            0 <= j < before.len() && (#[trigger] after[j]).is_some() && dist2(
                p,
                after[j].unwrap(),
            ) <= SEPARATION_SQ;
        if j != musician {
            assert(before[j] == after[j]);
            assert(before[j].is_some());
        }
    }
}

/// The number of musicians among the first `n` who are not placed.
pub open spec fn unplaced_count(placements: Seq<Option<Point2D>>, n: int) -> nat
    decreases n,
{
    if n <= 0 {
        0
    } else {
        unplaced_count(placements, n - 1) + if placements[n - 1].is_none() {
            1nat
        } else {
            0nat
        }
    }
}

/// Placing a musician leaves one fewer unplaced.
pub proof fn lemma_unplaced_count_after_placing(
    before: Seq<Option<Point2D>>,
    musician: int,
    new_pos: Point2D,
    n: int,
)
    requires
        0 <= musician < before.len(),
        before[musician].is_none(),
        0 <= n <= before.len(),
    ensures
        unplaced_count(before, n) == unplaced_count(before.update(musician, Some(new_pos)), n)
            + if musician < n {
            1nat
        } else {
            0nat
        },
    decreases n,
{
    if n > 0 {
        lemma_unplaced_count_after_placing(before, musician, new_pos, n - 1);
    }
}

/// A placement in which every musician stands on allowed ground stays so when
/// one more comes to stand within the inner area of the stage and more
/// than the least distance from all others.
pub proof fn lemma_placing_keeps_valid(
    before: Seq<Option<Point2D>>,
    data: crate::dto::ProblemDto,
    musician: int,
    new_pos: Point2D,
    i: int,
)
    requires
        0 <= musician < before.len(),
        before[musician].is_none(),
        0 <= i < before.len(),
        forall|k: int| 0 <= k < before.len() ==> !is_invalid_position(before, data, k),
        !outside_stage(data, new_pos),
        !near_any(new_pos, before, before.len() as int),
    ensures
        !is_invalid_position(before.update(musician, Some(new_pos)), data, i),
{
    let after = before.update(musician, Some(new_pos));
    if after[i].is_some() && close_to_any(after, i, after.len() as int) {
        let j = choose|j: int| 0 <= j < after.len() && #[trigger] too_close(after, i, j);
        if i == musician {
            assert(before[j] == after[j]);
            assert(before[j].is_some());
        } else if j == musician {
            assert(before[i] == after[i]);
            lemma_dist2_symmetric(new_pos, before[i].unwrap());
            assert(before[i].is_some());
        } else {
            assert(too_close(before, i, j));
            assert(is_invalid_position(before, data, i));
        }
    }
    if i != musician {
        assert(before[i] == after[i]);
        assert(!is_invalid_position(before, data, i));
    }
}

/// A musician who waits after another was placed waited before.
pub proof fn lemma_waits_before(
    musicians: Seq<Instrument>,
    before: Seq<Option<Point2D>>,
    musician: int,
    new_pos: Point2D,
    k: int,
)
    requires
        0 <= musician < before.len(),
        musicians.len() == before.len(),
        waits(musicians, before.update(musician, Some(new_pos)), k),
    ensures
        waits(musicians, before, k),
{
    let after = before.update(musician, Some(new_pos));
    let i = choose|i: int|
        0 <= i < musicians.len() && (#[trigger] after[i]).is_none() && musicians[i].0 == k;
    assert(before[i] == after[i]);
    assert(before[i].is_none());
}

/// `after` is what `before` becomes when it is brought up to date with
/// the pairs of a position and an attendee from whom the position is newly
/// hidden: each pair lowers the score of its position by what its attendee
/// awarded, unless a pillar hid the position from that attendee anyway; and the best
/// free position is found anew if the known one was taken or had its score
/// lowered, and else stays.
pub open spec fn updated_from(
    before: ImpactMap,
    after: ImpactMap,
    instrument: Instrument,
    attendees: Seq<Attendee>,
    grid: Grid,
    pillar_blockage: PillarBlockageMap,
    new_taken_positions: Set<usize>,
    pairs: Seq<(usize, usize)>,
) -> bool {
    &&& after.scores@.len() == before.scores@.len()
    &&& forall|p: int|
        0 <= p < grid.positions@.len() ==> (#[trigger] after.scores@[p]).0 == before.scores@[p].0
            - pair_impact_sum(instrument, attendees, grid, pillar_blockage, pairs, p)
    &&& if best_invalidated(before.best_score_pos_idx, new_taken_positions, pillar_blockage, pairs) {
        is_best(after.scores@, grid, after.best_score_pos_idx as int, after.best_score)
    } else {
        after.best_score_pos_idx == before.best_score_pos_idx && after.best_score
            == before.best_score
    }
}

/// The positions of the grid within the least distance of `center`.
pub open spec fn positions_near(grid: Grid, center: Point2D) -> Set<usize> {
    Set::new(
        |q: usize| q < grid.positions@.len() && dist2(grid.positions@[q as int].p, center)
            <= SEPARATION_SQ,
    )
}

/// Builds a placement one musician at a time: each step places a musician
/// of the instrument whose impact map offers the highest score at the best
/// position of that map.
#[derive(Debug, Default)]
pub struct Greedy {
    pub problem: Problem,
    pub grid: Grid,
    pub placements: Vec<Option<Point2D>>,
    pub remaining_musicians: HashSet<usize>,
    pub impact_maps: Vec<ImpactMap>,
    pub pillar_blockage_map: PillarBlockageMap,
}

impl Greedy {
    /// The state is that of a solver that was initialized and has made
    /// some steps: the musicians who remain are those without a position, a
    /// position is taken exactly if a placed musician is within the least
    /// distance of it, no musician stands outside the inner area of the
    /// stage or too close to another, and the impact map of every instrument
    /// that still has a musician to place agrees with the placement.
    pub open spec fn wf(&self) -> bool {
        let data = self.problem.data;
        &&& data.wf()
        &&& self.grid.wf()
        &&& self.placements@.len() == data.musicians@.len()
        &&& placements_wf(self.placements@)
        &&& forall|i: usize| #[trigger]
            self.remaining_musicians@.contains(i) <==> (i < self.placements@.len()
                && self.placements@[i as int].is_none())
        &&& self.impact_maps@.len() <= u32::MAX + 1
        &&& forall|m: int|
            0 <= m < data.musicians@.len() ==> (#[trigger] data.musicians@[m]).0
                < self.impact_maps@.len()
        &&& tastes_reach(data.attendees@, self.impact_maps@.len() as int)
        &&& forall|k: int|
            0 <= k < self.impact_maps@.len() ==> scores_bounded(
                #[trigger] self.impact_maps@[k],
                self.grid.positions@.len() as int,
            )
        &&& self.pillar_blockage_map.matches(self.grid, data.pillars@, data.attendees@)
        &&& forall|p: int|
            0 <= p < self.grid.positions@.len() ==> (#[trigger] self.grid.positions@[p]).taken
                == near_any(
                self.grid.positions@[p].p,
                self.placements@,
                self.placements@.len() as int,
            )
        &&& self.grid.within_stage(data)
        &&& forall|i: int|
            0 <= i < self.placements@.len() ==> !is_invalid_position(
                self.placements@,
                data,
                i,
            )
        &&& self.grid.has_free_position() ==> forall|k: int|
            0 <= k < self.impact_maps@.len() && waits(data.musicians@, self.placements@, k)
                ==> map_consistent(
                #[trigger] self.impact_maps@[k],
                Instrument(k as u32),
                data.attendees@,
                self.grid,
                data.pillars@,
                self.placements@,
            )
    }

    /// Every musician has a position.
    pub open spec fn is_done(&self) -> bool {
        forall|i: int| 0 <= i < self.placements@.len() ==> (#[trigger] self.placements@[i]).is_some()
    }

    /// A step can be made: a musician remains and a position is free.
    pub open spec fn can_step(&self) -> bool {
        !self.is_done() && self.grid.has_free_position()
    }

    /// Instrument number `k` is the one whose musician is placed next: the
    /// first among those with a musician to place whose impact map offers
    /// the highest score.
    pub open spec fn is_next_instrument(&self, k: int) -> bool {
        &&& 0 <= k < self.impact_maps@.len()
        &&& waits(self.problem.data.musicians@, self.placements@, k)
        &&& forall|j: int|
            0 <= j < self.impact_maps@.len() && waits(
                self.problem.data.musicians@,
                self.placements@,
                j,
            ) ==> (#[trigger] self.impact_maps@[j]).best_score.0
                <= self.impact_maps@[k].best_score.0
        &&& forall|j: int|
            0 <= j < k && waits(self.problem.data.musicians@, self.placements@, j) ==> (
            #[trigger] self.impact_maps@[j]).best_score.0 < self.impact_maps@[k].best_score.0
    }

    /// Musician `m` is the first of instrument number `k` who is not
    /// placed.
    pub open spec fn is_next_musician(&self, k: int, m: int) -> bool {
        &&& 0 <= m < self.placements@.len()
        &&& self.placements@[m].is_none()
        &&& self.problem.data.musicians@[m].0 == k
        &&& forall|i: int|
            0 <= i < m ==> !((#[trigger] self.placements@[i]).is_none()
                && self.problem.data.musicians@[i].0 == k)
    }

    /// The number of the instrument whose musician is placed next.
    pub open spec fn next_instrument(&self) -> int {
        choose|k: int| self.is_next_instrument(k)
    }

    /// The musician who is placed next.
    pub open spec fn next_musician(&self) -> int {
        choose|m: int| self.is_next_musician(self.next_instrument(), m)
    }

    /// The position at which the next musician is placed.
    pub open spec fn next_position(&self) -> Point2D {
        self.grid.positions@[self.impact_maps@[self.next_instrument()].best_score_pos_idx as int].p
    }

    /// The scores of the impact maps are what a scoring from scratch
    /// gives: for every instrument that still has a musician to place, the
    /// score of every free position is the sum of what the attendees who see
    /// it, past all pillars and all placed musicians, award a musician of
    /// the instrument there.
    pub proof fn lemma_scores_agree(&self, k: int, p: int)
        requires
            self.wf(),
            0 <= k < self.impact_maps@.len(),
            waits(self.problem.data.musicians@, self.placements@, k),
            0 <= p < self.grid.positions@.len(),
            !self.grid.positions@[p].taken,
        ensures
            self.impact_maps@[k].scores@[p].0 == position_score(
                Instrument(k as u32),
                self.problem.data.attendees@,
                self.grid.positions@[p].p,
                self.problem.data.pillars@,
                self.placements@,
                self.problem.data.attendees@.len() as int,
            ),
    {
        assert(self.grid.has_free_position());
        assert(map_consistent(
            self.impact_maps@[k],
            Instrument(k as u32),
            self.problem.data.attendees@,
            self.grid,
            self.problem.data.pillars@,
            self.placements@,
        ));
    }

    /// At most one instrument is the next one.
    pub proof fn lemma_next_instrument_unique(&self, k: int)
        requires
            self.is_next_instrument(k),
        ensures
            self.next_instrument() == k,
    {
        let c = self.next_instrument();
        assert(self.is_next_instrument(c));
        if c < k {
            assert(self.impact_maps@[c].best_score.0 < self.impact_maps@[k].best_score.0);
            assert(self.impact_maps@[k].best_score.0 <= self.impact_maps@[c].best_score.0);
        }
        if k < c {
            assert(self.impact_maps@[k].best_score.0 < self.impact_maps@[c].best_score.0);
            assert(self.impact_maps@[c].best_score.0 <= self.impact_maps@[k].best_score.0);
        }
    }

    /// At most one musician is the next one.
    pub proof fn lemma_next_musician_unique(&self, m: int)
        requires
            self.is_next_musician(self.next_instrument(), m),
        ensures
            self.next_musician() == m,
    {
        let c = self.next_musician();
        assert(self.is_next_musician(self.next_instrument(), c));
        if c < m {
            assert(!(self.placements@[c].is_none() && self.problem.data.musicians@[c].0
                == self.next_instrument()));
        }
        if m < c {
            assert(!(self.placements@[m].is_none() && self.problem.data.musicians@[m].0
                == self.next_instrument()));
        }
    }

    /// Tells whether every musician has a position.
    pub fn done(&self) -> (done: bool)
        requires
            self.wf(),
        ensures
            done == self.is_done(),
    {
        let done = self.remaining_musicians.is_empty();
        proof {
            if done {
                assert forall|i: int| 0 <= i < self.placements@.len() implies (
                #[trigger] self.placements@[i]).is_some() by {
                    assert(!self.remaining_musicians@.contains(i as usize));
                }
            } else {
                let i = choose|i: usize| self.remaining_musicians@.contains(i);
                assert(self.remaining_musicians@.contains(i));
                assert(self.placements@[i as int].is_none());
            }
        }
        done
    }

    /// For each of `count` instruments, whether one of its musicians is
    /// not placed yet.
    pub fn waiting_instruments(
        musicians: &Vec<Instrument>,
        placements: &Vec<Option<Point2D>>,
        count: usize,
    ) -> (waiting: Vec<bool>)
        requires
            musicians@.len() == placements@.len(),
            forall|m: int| 0 <= m < musicians@.len() ==> (#[trigger] musicians@[m]).0 < count,
        ensures
            waiting@.len() == count,
            forall|k: int|
                0 <= k < count ==> #[trigger] waiting@[k] == waits(musicians@, placements@, k),
    {
        let mut waiting: Vec<bool> = Vec::new();
        let mut k: usize = 0;
        while k < count
            invariant
                k <= count,
                waiting@.len() == k,
                forall|j: int| 0 <= j < k ==> !(#[trigger] waiting@[j]),
            decreases count - k,
        {
            waiting.push(false);
            k += 1;
        }
        let mut i: usize = 0;
        while i < placements.len()
            invariant
                i <= placements@.len(),
                musicians@.len() == placements@.len(),
                forall|m: int| 0 <= m < musicians@.len() ==> (#[trigger] musicians@[m]).0 < count,
                waiting@.len() == count,
                forall|k: int|
                    0 <= k < count ==> #[trigger] waiting@[k] == waits(
                        musicians@.take(i as int),
                        placements@,
                        k,
                    ),
            decreases placements@.len() - i,
        {
            let ghost shorter = musicians@.take(i as int);
            let ghost longer = musicians@.take(i + 1);
            let instrument = musicians[i].0 as usize;
            if placements[i].is_none() {
                waiting.set(instrument, true);
            }
            proof {
                assert forall|k: int| 0 <= k < count implies #[trigger] waiting@[k] == waits(
                    longer,
                    placements@,
                    k,
                ) by {
                    if waits(shorter, placements@, k) {
                        let j = choose|j: int|
                            0 <= j < shorter.len() && (#[trigger] placements@[j]).is_none()
                                && shorter[j].0 == k;
                        assert(longer[j] == shorter[j]);
                    }
                    if waits(longer, placements@, k) {
                        let j = choose|j: int|
                            0 <= j < longer.len() && (#[trigger] placements@[j]).is_none()
                                && longer[j].0 == k;
                        if j < i {
                            assert(longer[j] == shorter[j]);
                        }
                    }
                    if placements@[i as int].is_none() && k == instrument {
                        assert(longer[i as int].0 == k);
                    }
                }
            }
            i += 1;
        }
        assert(musicians@.take(placements@.len() as int) =~= musicians@);
        waiting
    }

    /// The instrument whose musician is placed next.
    pub fn choose_instrument(&self, waiting: &Vec<bool>) -> (best_instrument: usize)
        requires
            self.wf(),
            !self.is_done(),
            waiting@.len() == self.impact_maps@.len(),
            forall|k: int|
                0 <= k < waiting@.len() ==> #[trigger] waiting@[k] == waits(
                    self.problem.data.musicians@,
                    self.placements@,
                    k,
                ),
        ensures
            self.is_next_instrument(best_instrument as int),
    {
        let mut best_instrument: usize = 0;
        let mut best_score: i128 = 0;
        let mut found: bool = false;
        let mut k: usize = 0;
        while k < self.impact_maps.len()
            invariant
                k <= self.impact_maps@.len(),
                waiting@.len() == self.impact_maps@.len(),
                forall|j: int|
                    0 <= j < waiting@.len() ==> #[trigger] waiting@[j] == waits(
                        self.problem.data.musicians@,
                        self.placements@,
                        j,
                    ),
                !found ==> forall|j: int| 0 <= j < k ==> !(#[trigger] waiting@[j]),
                found ==> best_instrument < k && waiting@[best_instrument as int] && best_score
                    == self.impact_maps@[best_instrument as int].best_score.0,
                found ==> forall|j: int|
                    0 <= j < k && waiting@[j] ==> (#[trigger] self.impact_maps@[j]).best_score.0
                        <= best_score,
                found ==> forall|j: int|
                    0 <= j < best_instrument && waiting@[j] ==> (
                    #[trigger] self.impact_maps@[j]).best_score.0 < best_score,
            decreases self.impact_maps@.len() - k,
        {
            if waiting[k] {
                let impact_map = &self.impact_maps[k];
                if !found || best_score < impact_map.best_score.0 {
                    best_score = impact_map.best_score.0;
                    best_instrument = k;
                    found = true;
                }
            }
            k += 1;
        }
        proof {
            if !found {
                let i = choose|i: int|
                    0 <= i < self.placements@.len() && !(#[trigger] self.placements@[i]).is_some();
                let instrument = self.problem.data.musicians@[i].0 as int;
                assert(waits(self.problem.data.musicians@, self.placements@, instrument));
                assert(waiting@[instrument]);
            }
        }
        best_instrument
    }

    /// The first musician of instrument number `instrument` who is not
    /// placed, if there is one.
    pub fn choose_musician(&self, instrument: usize) -> (musician: Option<usize>)
        requires
            self.wf(),
        ensures
            match musician {
                Some(m) => self.is_next_musician(instrument as int, m as int),
                None => !waits(self.problem.data.musicians@, self.placements@, instrument as int),
            },
    {
        let mut i: usize = 0;
        while i < self.placements.len()
            invariant
                i <= self.placements@.len(),
                self.wf(),
                forall|j: int|
                    0 <= j < i ==> !((#[trigger] self.placements@[j]).is_none()
                        && self.problem.data.musicians@[j].0 == instrument),
            decreases self.placements@.len() - i,
        {
            if self.remaining_musicians.contains(&i) && self.problem.data.musicians[i].0 as usize
                == instrument {
                return Some(i);
            }
            i += 1;
        }
        None
    }

    /// Starts on a problem: builds the candidate grid, finds what the
    /// pillars hide, and builds an impact map for every instrument up to
    /// the highest in use.
    pub fn initialize(&mut self, problem: Problem, solution: SolutionDto)
        requires
            solution.placements@.len() == 0,
            problem.data.wf(),
            problem.data.musicians@.len() >= 1,
            problem.data.stage_width >= 2 * STAGE_MARGIN,
            problem.data.stage_height >= 2 * STAGE_MARGIN,
        ensures
            final(self).wf(),
            final(self).can_step(),
            final(self).problem == problem,
            final(self).placements@.len() == problem.data.musicians@.len(),
            exists|m: int|
                0 <= m < problem.data.musicians@.len() && (
                #[trigger] problem.data.musicians@[m]).0 + 1 == final(self).impact_maps@.len(),
            forall|k: int|
                0 <= k < final(self).impact_maps@.len() ==> is_best(
                    (#[trigger] final(self).impact_maps@[k]).scores@,
                    final(self).grid,
                    final(self).impact_maps@[k].best_score_pos_idx as int,
                    final(self).impact_maps@[k].best_score,
                ),
            forall|i: int|
                0 <= i < final(self).placements@.len() ==> (
                #[trigger] final(self).placements@[i]).is_none(),
            is_grid_of(final(self).grid.positions@, problem.data, grid_spacing(problem.data)),
    {
        let grid = Grid::new(&problem);
        proof {
            crate::common::lemma_grid_spacing_positive(problem.data);
            lemma_grid_not_empty(problem.data, grid_spacing(problem.data));
            assert(!grid.positions@[0].taken);
        }
        let mut max_instrument: u32 = 0;
        let mut placements: Vec<Option<Point2D>> = Vec::new();
        let mut remaining_musicians: HashSet<usize> = HashSet::new();
        let mut i: usize = 0;
        while i < problem.data.musicians.len()
            invariant
                i <= problem.data.musicians@.len(),
                placements@.len() == i,
                forall|j: int| 0 <= j < i ==> (#[trigger] placements@[j]).is_none(),
                forall|j: usize| #[trigger] remaining_musicians@.contains(j) <==> j < i,
                forall|m: int|
                    0 <= m < i ==> (#[trigger] problem.data.musicians@[m]).0 <= max_instrument,
                i > 0 ==> exists|m: int|
                    0 <= m < i && (#[trigger] problem.data.musicians@[m]).0 == max_instrument,
            decreases problem.data.musicians@.len() - i,
        {
            let ghost witness = if i > 0 {
                choose|m: int|
                    0 <= m < i && (#[trigger] problem.data.musicians@[m]).0 == max_instrument
            } else {
                0
            };
            if i == 0 || problem.data.musicians[i].0 > max_instrument {
                max_instrument = problem.data.musicians[i].0;
                assert(problem.data.musicians@[i as int].0 == max_instrument);
            } else {
                assert(problem.data.musicians@[witness].0 == max_instrument);
            }
            remaining_musicians.insert(i);
            placements.push(None);
            i += 1;
        }
        let pillar_blockage_map = PillarBlockageMap::new(
            &grid,
            &problem.data.pillars,
            &problem.data.attendees,
        );
        let ghost highest = choose|m: int|
            0 <= m < problem.data.musicians@.len() && (#[trigger] problem.data.musicians@[m]).0
                == max_instrument;
        proof {
            assert(tastes_cover(problem.data.attendees@, problem.data.musicians@[highest]));
            assert(tastes_reach(problem.data.attendees@, max_instrument + 1));
        }
        let mut impact_maps: Vec<ImpactMap> = Vec::new();
        let mut k: u32 = 0;
        loop
            invariant_except_break
                impact_maps@.len() == k,
            invariant
                k <= max_instrument,
                problem.data.wf(),
                grid.wf(),
                grid.has_free_position(),
                tastes_reach(problem.data.attendees@, max_instrument + 1),
                pillar_blockage_map.matches(grid, problem.data.pillars@, problem.data.attendees@),
                forall|j: int| 0 <= j < placements@.len() ==> (#[trigger] placements@[j]).is_none(),
                forall|j: int|
                    0 <= j < impact_maps@.len() ==> scores_bounded(
                        #[trigger] impact_maps@[j],
                        grid.positions@.len() as int,
                    ),
                forall|j: int|
                    0 <= j < impact_maps@.len() ==> map_consistent(
                        #[trigger] impact_maps@[j],
                        Instrument(j as u32),
                        problem.data.attendees@,
                        grid,
                        problem.data.pillars@,
                        placements@,
                    ),
                forall|j: int|
                    0 <= j < impact_maps@.len() ==> is_best(
                        (#[trigger] impact_maps@[j]).scores@,
                        grid,
                        impact_maps@[j].best_score_pos_idx as int,
                        impact_maps@[j].best_score,
                    ),
            ensures
                impact_maps@.len() == max_instrument + 1,
            decreases max_instrument - k,
        {
            let instrument = Instrument(k);
            assert(tastes_cover(problem.data.attendees@, instrument));
            let impact_map = ImpactMap::new(
                &instrument,
                &problem.data.attendees,
                &grid,
                &pillar_blockage_map,
            );
            proof {
                assert forall|p: int|
                    0 <= p < grid.positions@.len() && !(
                    #[trigger] grid.positions@[p]).taken implies impact_map.scores@[p].0
                    == position_score(
                    instrument,
                    problem.data.attendees@,
                    grid.positions@[p].p,
                    problem.data.pillars@,
                    placements@,
                    problem.data.attendees@.len() as int,
                ) by {
                    lemma_position_score_initial(
                        instrument,
                        problem.data.attendees@,
                        grid,
                        p,
                        problem.data.pillars@,
                        pillar_blockage_map,
                        placements@,
                        problem.data.attendees@.len() as int,
                    );
                }
            }
            impact_maps.push(impact_map);
            if k == max_instrument {
                break ;
            }
            k += 1;
        }
        self.problem = problem;
        self.grid = grid;
        self.placements = placements;
        self.remaining_musicians = remaining_musicians;
        self.impact_maps = impact_maps;
        self.pillar_blockage_map = pillar_blockage_map;
        proof {
            assert(problem.data.musicians@[highest].0 + 1 == self.impact_maps@.len());
            assert(!self.placements@[0].is_some());
            assert forall|p: int| 0 <= p < self.grid.positions@.len() implies (
            #[trigger] self.grid.positions@[p]).taken == near_any(
                self.grid.positions@[p].p,
                self.placements@,
                self.placements@.len() as int,
            ) by {}
        }
    }

    /// Places one musician: of the instruments that still have a musician
    /// to place, the first whose impact map offers the highest score gives
    /// its first such musician the best free position of its map. The
    /// positions within the least distance of the new musician are then
    /// taken, and the impact maps of the instruments that still have
    /// musicians to place are brought up to date. Returns the placement so
    /// far, and whether it is complete.
    pub fn solve_step(&mut self) -> (step: (SolutionDto, bool))
        requires
            old(self).wf(),
            old(self).can_step(),
        ensures
            final(self).wf(),
            final(self).problem == old(self).problem,
            final(self).placements@ == old(self).placements@.update(
                old(self).next_musician(),
                Some(old(self).next_position()),
            ),
            old(self).is_next_instrument(old(self).next_instrument()),
            old(self).is_next_musician(old(self).next_instrument(), old(self).next_musician()),
            final(self).grid.positions@.len() == old(self).grid.positions@.len(),
            forall|p: int|
                0 <= p < old(self).grid.positions@.len() ==> (
                #[trigger] final(self).grid.positions@[p]).p == old(self).grid.positions@[p].p,
            !near_any(
                old(self).next_position(),
                old(self).placements@,
                old(self).placements@.len() as int,
            ),
            final(self).remaining_musicians@ == old(self).remaining_musicians@.remove(
                old(self).next_musician() as usize,
            ),
            old(self).remaining_musicians@.contains(old(self).next_musician() as usize),
            forall|p: int|
                0 <= p < old(self).grid.positions@.len() ==> (
                #[trigger] final(self).grid.positions@[p]).taken == (
                old(self).grid.positions@[p].taken || dist2(
                    old(self).grid.positions@[p].p,
                    old(self).next_position(),
                ) <= SEPARATION_SQ),
            final(self).pillar_blockage_map == old(self).pillar_blockage_map,
            final(self).impact_maps@.len() == old(self).impact_maps@.len(),
            forall|k: int|
                0 <= k < old(self).impact_maps@.len() ==> if final(self).grid.has_free_position()
                    && waits(final(self).problem.data.musicians@, final(self).placements@, k) {
                    updated_from(
                        old(self).impact_maps@[k],
                        #[trigger] final(self).impact_maps@[k],
                        Instrument(k as u32),
                        final(self).problem.data.attendees@,
                        final(self).grid,
                        final(self).pillar_blockage_map,
                        positions_near(old(self).grid, old(self).next_position()),
                        blocked_pairs(
                            old(self).next_position(),
                            final(self).problem.data.attendees@,
                            final(self).grid,
                            final(self).placements@,
                            old(self).next_musician(),
                            final(self).grid.positions@.len() as int,
                        ),
                    )
                } else {
                    final(self).impact_maps@[k] == old(self).impact_maps@[k]
                },
            step.0.placements@ == final(self).placements@,
            step.0.volumes.is_none(),
            step.1 == final(self).is_done(),
    {
        let waiting = Self::waiting_instruments(
            &self.problem.data.musicians,
            &self.placements,
            self.impact_maps.len(),
        );
        let best_instrument = self.choose_instrument(&waiting);
        let chosen = self.choose_musician(best_instrument);
        proof {
            self.lemma_next_instrument_unique(best_instrument as int);
        }
        let idx = match chosen {
            Some(m) => m,
            None => {
                assert(false);
                0
            },
        };
        proof {
            self.lemma_next_musician_unique(idx as int);
            assert(map_consistent(
                self.impact_maps@[best_instrument as int],
                Instrument(best_instrument as u32),
                self.problem.data.attendees@,
                self.grid,
                self.problem.data.pillars@,
                self.placements@,
            ));
        }
        let best_pos_idx = self.impact_maps[best_instrument].best_score_pos_idx;
        let best_pos = self.grid.positions[best_pos_idx];
        let ghost before = self.placements@;
        let ghost grid_before = self.grid;
        let ghost maps_before = self.impact_maps@;
        let ghost blockage = self.pillar_blockage_map;
        let ghost musicians = self.problem.data.musicians@;
        let ghost attendees = self.problem.data.attendees@;
        let ghost pillars = self.problem.data.pillars@;
        self.remaining_musicians.remove(&idx);
        self.placements.set(idx, Some(best_pos.p));
        let new_taken_positions = self.grid.take_near(&best_pos.p);
        let ghost after = self.placements@;
        let ghost remaining = self.remaining_musicians@;
        proof {
            assert(after == before.update(idx as int, Some(best_pos.p)));
            assert(self.grid.positions.len() <= usize::MAX);
            assert(self.problem.data.attendees.len() <= usize::MAX);
            assert forall|i: usize| #[trigger]
                remaining.contains(i) <==> (i < after.len() && after[i as int].is_none()) by {
                if i != idx && i < after.len() {
                    assert(after[i as int] == before[i as int]);
                }
            }
            assert forall|p: int| 0 <= p < self.grid.positions@.len() implies (
            #[trigger] self.grid.positions@[p]).taken == near_any(
                self.grid.positions@[p].p,
                after,
                after.len() as int,
            ) by {
                lemma_near_any_after_placing(
                    grid_before.positions@[p].p,
                    before,
                    idx as int,
                    best_pos.p,
                );
                assert(grid_before.positions@[p].taken == near_any(
                    grid_before.positions@[p].p,
                    before,
                    before.len() as int,
                ));
            }
            assert(self.pillar_blockage_map.matches(self.grid, pillars, attendees)) by {
                assert forall|p: int, a: int|
                    0 <= p < self.grid.positions@.len() && 0 <= a < attendees.len() implies (
                #[trigger] self.pillar_blockage_map.blocks(p, a)
                    == crate::scoring::scorer::blocked_by_pillar(
                    attendees[a].position(),
                    self.grid.positions@[p].p,
                    pillars,
                )) by {
                    assert(self.grid.positions@[p].p == grid_before.positions@[p].p);
                }
            }
            assert(self.grid.wf()) by {
                assert forall|p: int| 0 <= p < self.grid.positions@.len() implies (
                #[trigger] self.grid.positions@[p]).p.wf() by {
                    assert(self.grid.positions@[p].p == grid_before.positions@[p].p);
                    assert(grid_before.positions@[p].p.wf());
                }
            }
            assert(placements_wf(after)) by {
                assert(grid_before.positions@[best_pos_idx as int].p.wf());
                assert forall|j: int| 0 <= j < after.len() && (
                #[trigger] after[j]).is_some() implies after[j].unwrap().wf() by {
                    if j != idx {
                        assert(after[j] == before[j]);
                    }
                }
            }
            assert(self.grid.within_stage(self.problem.data)) by {
                assert forall|p: int| 0 <= p < self.grid.positions@.len() implies !outside_stage(
                    self.problem.data,
                    (#[trigger] self.grid.positions@[p]).p,
                ) by {
                    assert(self.grid.positions@[p].p == grid_before.positions@[p].p);
                }
            }
            assert forall|i: int| 0 <= i < after.len() implies !is_invalid_position(
                after,
                self.problem.data,
                i,
            ) by {
                lemma_placing_keeps_valid(
                    before,
                    self.problem.data,
                    idx as int,
                    best_pos.p,
                    i,
                );
            }
        }
        if self.grid.any_free() {
            let still_waiting = Self::waiting_instruments(
                &self.problem.data.musicians,
                &self.placements,
                self.impact_maps.len(),
            );
            let blocked_positions = ImpactMap::calculate_blocked_positions(
                &best_pos.p,
                &self.problem.data.attendees,
                &self.grid,
                &self.placements,
                idx,
            );
            proof {
                lemma_blocked_pairs_sum(
                    Instrument(0),
                    attendees,
                    self.grid,
                    self.pillar_blockage_map,
                    best_pos.p,
                    after,
                    idx as int,
                    self.grid.positions@.len() as int,
                    0,
                );
                assert(grid_before.has_free_position()) by {
                    let q = choose|q: int|
                        0 <= q < self.grid.positions@.len() && !(
                        #[trigger] self.grid.positions@[q]).taken;
                    assert(!grid_before.positions@[q].taken);
                }
            }
            let mut k: usize = 0;
            while k < self.impact_maps.len()
                invariant
                    k <= self.impact_maps@.len(),
                    self.impact_maps@.len() == maps_before.len(),
                    self.remaining_musicians@ == remaining,
                    self.grid.positions@.len() <= usize::MAX,
                    self.grid.within_stage(self.problem.data),
                    self.pillar_blockage_map == blockage,
                    new_taken_positions@ =~= positions_near(grid_before, best_pos.p),
                    forall|j: int|
                        0 <= j < k ==> if waits(musicians, after, j) {
                            updated_from(
                                maps_before[j],
                                #[trigger] self.impact_maps@[j],
                                Instrument(j as u32),
                                attendees,
                                self.grid,
                                blockage,
                                positions_near(grid_before, best_pos.p),
                                blocked_positions@,
                            )
                        } else {
                            self.impact_maps@[j] == maps_before[j]
                        },
                    forall|p: int|
                        0 <= p < self.grid.positions@.len() ==> (
                        #[trigger] self.grid.positions@[p]).taken == near_any(
                            self.grid.positions@[p].p,
                            after,
                            after.len() as int,
                        ),
                    placements_wf(after),
                    crate::scoring::impact_map::pairs_in_range(
                        blocked_positions@,
                        self.grid.positions@.len() as int,
                        attendees.len() as int,
                    ),
                    self.problem == old(self).problem,
                    self.problem.data.wf(),
                    musicians == self.problem.data.musicians@,
                    attendees == self.problem.data.attendees@,
                    pillars == self.problem.data.pillars@,
                    self.placements@ == after,
                    after == before.update(idx as int, Some(best_pos.p)),
                    0 <= idx < before.len(),
                    before[idx as int].is_none(),
                    before.len() == musicians.len(),
                    self.grid.wf(),
                    self.grid.has_free_position(),
                    grid_before.has_free_position(),
                    self.grid.positions@.len() == grid_before.positions@.len(),
                    forall|p: int|
                        0 <= p < self.grid.positions@.len() ==> (
                        #[trigger] self.grid.positions@[p]).p == grid_before.positions@[p].p,
                    forall|p: int|
                        0 <= p < self.grid.positions@.len() ==> (
                        #[trigger] self.grid.positions@[p]).taken == (
                        grid_before.positions@[p].taken || dist2(
                            grid_before.positions@[p].p,
                            best_pos.p,
                        ) <= SEPARATION_SQ),
                    forall|q: usize| #[trigger]
                        new_taken_positions@.contains(q) <==> (q < grid_before.positions@.len()
                            && dist2(grid_before.positions@[q as int].p, best_pos.p)
                            <= SEPARATION_SQ),
                    self.pillar_blockage_map.matches(self.grid, pillars, attendees),
                    tastes_reach(attendees, maps_before.len() as int),
                    maps_before.len() <= u32::MAX + 1,
                    blocked_positions@ == blocked_pairs(
                        best_pos.p,
                        attendees,
                        self.grid,
                        after,
                        idx as int,
                        self.grid.positions@.len() as int,
                    ),
                    still_waiting@.len() == maps_before.len(),
                    forall|j: int|
                        0 <= j < maps_before.len() ==> #[trigger] still_waiting@[j] == waits(
                            musicians,
                            after,
                            j,
                        ),
                    forall|j: int|
                        0 <= j < maps_before.len() && waits(musicians, before, j)
                            ==> map_consistent(
                            #[trigger] maps_before[j],
                            Instrument(j as u32),
                            attendees,
                            grid_before,
                            pillars,
                            before,
                        ),
                    forall|j: int|
                        0 <= j < maps_before.len() ==> scores_bounded(
                            #[trigger] maps_before[j],
                            grid_before.positions@.len() as int,
                        ),
                    forall|j: int|
                        k <= j < maps_before.len() ==> #[trigger] self.impact_maps@[j]
                            == maps_before[j],
                    forall|j: int|
                        0 <= j < maps_before.len() ==> scores_bounded(
                            #[trigger] self.impact_maps@[j],
                            self.grid.positions@.len() as int,
                        ),
                    forall|j: int|
                        0 <= j < k && waits(musicians, after, j) ==> map_consistent(
                            #[trigger] self.impact_maps@[j],
                            Instrument(j as u32),
                            attendees,
                            self.grid,
                            pillars,
                            after,
                        ),
                decreases self.impact_maps@.len() - k,
            {
                if still_waiting[k] {
                    let instrument = Instrument(k as u32);
                    let ghost map_before = self.impact_maps@[k as int];
                    proof {
                        lemma_waits_before(musicians, before, idx as int, best_pos.p, k as int);
                        assert(map_consistent(
                            maps_before[k as int],
                            instrument,
                            attendees,
                            grid_before,
                            pillars,
                            before,
                        ));
                        assert(scores_bounded(
                            maps_before[k as int],
                            grid_before.positions@.len() as int,
                        ));
                        assert(tastes_cover(attendees, instrument));
                    }
                    self.impact_maps[k].update(
                        &instrument,
                        &self.problem.data.attendees,
                        &self.grid,
                        &new_taken_positions,
                        &blocked_positions,
                        &self.pillar_blockage_map,
                    );
                    assert(follows_placing(
                        attendees,
                        grid_before,
                        self.grid,
                        pillars,
                        self.pillar_blockage_map,
                        before,
                        idx as int,
                        best_pos.p,
                        new_taken_positions@,
                        blocked_positions@,
                    ));
                }
                k += 1;
            }
        }
        let done = self.remaining_musicians.is_empty();
        proof {
            if done {
                assert forall|i: int| 0 <= i < self.placements@.len() implies (
                #[trigger] self.placements@[i]).is_some() by {
                    assert(!self.remaining_musicians@.contains(i as usize));
                }
            } else {
                let i = choose|i: usize| self.remaining_musicians@.contains(i);
                assert(self.remaining_musicians@.contains(i));
                assert(self.placements@[i as int].is_none());
            }
            if self.grid.has_free_position() {
                assert forall|j: int|
                    0 <= j < self.impact_maps@.len() && waits(
                        musicians,
                        self.placements@,
                        j,
                    ) implies map_consistent(
                    #[trigger] self.impact_maps@[j],
                    Instrument(j as u32),
                    attendees,
                    self.grid,
                    pillars,
                    self.placements@,
                ) by {}
            }
        }
        let placements = self.placements.clone();
        assert(placements@ =~= self.placements@);
        (SolutionDto { placements, volumes: None }, done)
    }

    /// The name of the solver.
    pub fn name(&self) -> (name: String)
        ensures
            name@ == "greedy"@,
    {
        "greedy".to_string()
    }

    /// The impact map of an instrument, if there is one.
    pub fn get_impact_map(&self, instrument: &Instrument) -> (map: Option<&ImpactMap>)
        ensures
            match map {
                Some(m) => (instrument.0 as int) < self.impact_maps@.len() && *m
                    == self.impact_maps@[instrument.0 as int],
                None => instrument.0 >= self.impact_maps@.len(),
            },
    {
        if (instrument.0 as usize) < self.impact_maps.len() {
            Some(&self.impact_maps[instrument.0 as usize])
        } else {
            None
        }
    }

    /// The candidate grid.
    pub fn get_grid(&self) -> (grid: Option<&Grid>)
        ensures
            grid == Some(&self.grid),
    {
        Some(&self.grid)
    }

    /// Tells whether a step can be made.
    pub fn has_step(&self) -> (ready: bool)
        requires
            self.wf(),
        ensures
            ready == self.can_step(),
    {
        !self.done() && self.grid.any_free()
    }

    /// Places all musicians of a problem and scores the placement.
    /// Returns `None` if the candidate positions run out before every
    /// musician has one.
    pub fn solve(&mut self, problem: Problem) -> (solution: Option<Solution>)
        requires
            problem.data.wf(),
            problem.data.musicians@.len() >= 1,
            problem.data.stage_width >= 2 * STAGE_MARGIN,
            problem.data.stage_height >= 2 * STAGE_MARGIN,
        ensures
            final(self).wf(),
            final(self).problem == problem,
            match solution {
                Some(found) => {
                    &&& final(self).is_done()
                    &&& final(self).remaining_musicians@.len() == 0
                    &&& found.data.placements@ == final(self).placements@
                    &&& found.data.volumes.is_none()
                    &&& forall|i: int|
                        0 <= i < found.data.placements@.len() ==> (
                        #[trigger] found.data.placements@[i]).is_some()
                    &&& found.score.0 == score_of(problem.data, found.data.placements@, None)
                },
                None => !final(self).is_done() && !final(self).grid.has_free_position(),
            },
    {
        self.initialize(problem, SolutionDto { placements: Vec::new(), volumes: None });
        loop
            invariant
                self.wf(),
                self.can_step(),
                self.problem == problem,
            decreases unplaced_count(self.placements@, self.placements@.len() as int),
        {
            let ghost before = self.placements@;
            let ghost musician = self.next_musician();
            let ghost new_pos = self.next_position();
            let ghost instrument = self.next_instrument();
            let ghost state = *self;
            let (solution, done) = self.solve_step();
            proof {
                assert(state.is_next_musician(instrument, musician));
                lemma_unplaced_count_after_placing(
                    before,
                    musician,
                    new_pos,
                    before.len() as int,
                );
            }
            if done {
                let total = self.problem.score(&solution.placements, None);
                proof {
                    assert(self.remaining_musicians@ =~= Set::empty()) by {
                        assert forall|i: usize| !self.remaining_musicians@.contains(i) by {
                            if i < self.placements@.len() {
                                assert(self.placements@[i as int].is_some());
                            }
                        }
                    }
                }
                return Some(Solution { score: total, data: solution });
            }
            if !self.grid.any_free() {
                return None;
            }
        }
    }
}

} // verus!
