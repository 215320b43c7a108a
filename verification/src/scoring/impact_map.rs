//! Impact maps: for an instrument, what the attendees would award a
//! musician at each candidate position, kept up to date as musicians are
//! placed.

use std::collections::HashSet;
use vstd::prelude::*;

use crate::common::{Grid, Position, SEPARATION_SQ};
use crate::dto::{
    attendees_wf, tastes_cover, Attendee, Instrument, PillarDto, Point2D, ATTENDEE_LIMIT,
};
use crate::geometry::{dist2, segment_hits_disk};
use crate::scoring::scorer::{
    blocked_by_musician, blocked_by_pillar, calculate_impact, impact_of, is_blocked_by_musicians,
    is_blocked_by_pillars, is_sound_blocked, lemma_impact_bound, pillars_wf, placements_wf,
    IMPACT_LIMIT, MUSICIAN_RADIUS,
};
use crate::solvers::Score;

verus! {

broadcast use vstd::std_specs::hash::group_hash_axioms;

/// For each candidate position the attendees from whom a pillar hides it.
/// With no pillar in the problem the list is empty.
#[derive(Clone, Debug, Default)]
pub struct PillarBlockageMap {
    pub blocked_positions: Vec<HashSet<usize>>,
}

impl PillarBlockageMap {
    /// A pillar hides position `idx_pos` from attendee `idx_attendee`.
    pub open spec fn blocks(&self, idx_pos: int, idx_attendee: int) -> bool {
        &&& 0 <= idx_pos < self.blocked_positions@.len()
        &&& 0 <= idx_attendee <= usize::MAX
        &&& self.blocked_positions@[idx_pos]@.contains(idx_attendee as usize)
    }

    /// The map holds exactly the pairs of a position of `grid` and an
    /// attendee between which a pillar stands.
    pub open spec fn matches(
        &self,
        grid: Grid,
        pillars: Seq<PillarDto>,
        attendees: Seq<Attendee>,
    ) -> bool {
        forall|p: int, a: int|
            0 <= p < grid.positions@.len() && 0 <= a < attendees.len() ==> (#[trigger] self.blocks(
                p,
                a,
            ) == blocked_by_pillar(attendees[a].position(), grid.positions@[p].p, pillars))
    }

    /// Finds for every candidate position the attendees from whom a pillar
    /// hides it.
    pub fn new(grid: &Grid, pillars: &Vec<PillarDto>, attendees: &Vec<Attendee>) -> (map: Self)
        requires
            grid.wf(),
            pillars_wf(pillars@),
            attendees_wf(attendees@),
        ensures
            map.matches(*grid, pillars@, attendees@),
            forall|p: int, a: int|
                #[trigger] map.blocks(p, a) ==> 0 <= p < grid.positions@.len() && 0 <= a
                    < attendees@.len(),
    {
        if pillars.len() == 0 {
            return PillarBlockageMap { blocked_positions: Vec::new() };
        }
        let mut blocked_positions: Vec<HashSet<usize>> = Vec::new();
        let mut idx_pos: usize = 0;
        while idx_pos < grid.positions.len()
            invariant
                idx_pos <= grid.positions@.len(),
                grid.wf(),
                pillars_wf(pillars@),
                attendees_wf(attendees@),
                blocked_positions@.len() == idx_pos,
                forall|p: int, a: usize|
                    0 <= p < idx_pos && (#[trigger] blocked_positions@[p]@.contains(a)) ==> a
                        < attendees@.len(),
                forall|p: int, a: usize|
                    0 <= p < idx_pos && 0 <= a < attendees@.len() ==> (
                    #[trigger] blocked_positions@[p]@.contains(a)) == blocked_by_pillar(
                        attendees@[a as int].position(),
                        grid.positions@[p].p,
                        pillars@,
                    ),
            decreases grid.positions@.len() - idx_pos,
        {
            let pos = grid.positions[idx_pos].p;
            let mut blocked: HashSet<usize> = HashSet::new();
            let mut idx_attendee: usize = 0;
            while idx_attendee < attendees.len()
                invariant
                    idx_attendee <= attendees@.len(),
                    idx_pos < grid.positions@.len(),
                    pos == grid.positions@[idx_pos as int].p,
                    pos.wf(),
                    pillars_wf(pillars@),
                    attendees_wf(attendees@),
                    forall|a: usize|
                        0 <= a < idx_attendee ==> (#[trigger] blocked@.contains(a))
                            == blocked_by_pillar(attendees@[a as int].position(), pos, pillars@),
                    forall|k: usize| #[trigger] blocked@.contains(k) ==> k < idx_attendee,
                decreases attendees@.len() - idx_attendee,
            {
                let attendee = attendees[idx_attendee].as_vec();
                if is_blocked_by_pillars(&attendee, &pos, pillars) {
                    blocked.insert(idx_attendee);
                }
                idx_attendee += 1;
            }
            blocked_positions.push(blocked);
            idx_pos += 1;
        }
        let map = PillarBlockageMap { blocked_positions };
        assert forall|p: int, a: int|
            0 <= p < grid.positions@.len() && 0 <= a < attendees@.len() implies (
        #[trigger] map.blocks(p, a) == blocked_by_pillar(
            attendees@[a].position(),
            grid.positions@[p].p,
            pillars@,
        )) by {
            assert(attendees@.len() == attendees.len());
            let au = a as usize;
            assert(au as int == a);
            assert(map.blocks(p, a) == map.blocked_positions@[p]@.contains(au));
            assert(map.blocked_positions@[p]@.contains(au) == blocked_by_pillar(
                attendees@[au as int].position(),
                grid.positions@[p].p,
                pillars@,
            ));
        }
        map
    }

    /// Tells whether a pillar hides position `idx_pos` from attendee
    /// `idx_attendee`.
    pub fn is_sound_blocked(&self, idx_pos: usize, idx_attendee: usize) -> (blocked: bool)
        ensures
            blocked == self.blocks(idx_pos as int, idx_attendee as int),
    {
        if idx_pos < self.blocked_positions.len() {
            self.blocked_positions[idx_pos].contains(&idx_attendee)
        } else {
            false
        }
    }
}

/// Largest magnitude of an entry of an impact map.
pub const SCORE_LIMIT: i128 = 2_199_023_255_552_000_000_000_000;

/// What the first `n` attendees award a musician of `instrument` at
/// candidate position `idx_pos`, which is the point `pos`, counting those
/// only from whom no pillar hides the position.
pub open spec fn unblocked_impact_sum(
    instrument: Instrument,
    attendees: Seq<Attendee>,
    idx_pos: int,
    pos: Point2D,
    pillar_blockage: PillarBlockageMap,
    n: int,
) -> int
    decreases n,
{
    if n <= 0 {
        0
    } else {
        unblocked_impact_sum(instrument, attendees, idx_pos, pos, pillar_blockage, n - 1) + (
        if pillar_blockage.blocks(idx_pos, n - 1) {
            0
        } else {
            impact_of(attendees[n - 1], instrument, pos)
        })
    }
}

/// Position `idx` is free and has the score `score`, no free position has
/// a higher score, and none behind it has the same.
pub open spec fn is_best(scores: Seq<Score>, grid: Grid, idx: int, score: Score) -> bool {
    &&& 0 <= idx < scores.len()
    &&& !grid.positions@[idx].taken
    &&& scores[idx] == score
    &&& forall|q: int|
        0 <= q < scores.len() && !(#[trigger] grid.positions@[q]).taken ==> scores[q].0 <= score.0
    &&& forall|q: int|
        idx < q < scores.len() && !(#[trigger] grid.positions@[q]).taken ==> scores[q].0 < score.0
}

/// The musician who comes to stand at `new_pos` hides `target` from the
/// attendee, and no placed musician other than number `musician` did so
/// already.
pub open spec fn newly_blocked(
    attendee: Point2D,
    target: Point2D,
    new_pos: Point2D,
    placements: Seq<Option<Point2D>>,
    musician: int,
) -> bool {
    segment_hits_disk(attendee, target, new_pos, MUSICIAN_RADIUS as int) && !blocked_by_musician(
        attendee,
        target,
        placements,
        musician,
    )
}

/// The pairs of position `idx_pos` and one of the first `n` attendees from
/// whom the musician at `new_pos` newly hides it, in the order of the
/// attendees.
pub open spec fn blocked_row(
    idx_pos: usize,
    pos: Point2D,
    new_pos: Point2D,
    attendees: Seq<Attendee>,
    placements: Seq<Option<Point2D>>,
    musician: int,
    n: int,
) -> Seq<(usize, usize)>
    decreases n,
{
    if n <= 0 {
        Seq::empty()
    } else {
        let rest = blocked_row(idx_pos, pos, new_pos, attendees, placements, musician, n - 1);
        if newly_blocked(attendees[n - 1].position(), pos, new_pos, placements, musician) {
            rest.push((idx_pos, (n - 1) as usize))
        } else {
            rest
        }
    }
}

/// The pairs of one of the first `m` positions that is free and an
/// attendee from whom the musician at `new_pos` newly hides it, in the
/// order of the positions, and for each in the order of the attendees.
pub open spec fn blocked_pairs(
    new_pos: Point2D,
    attendees: Seq<Attendee>,
    grid: Grid,
    placements: Seq<Option<Point2D>>,
    musician: int,
    m: int,
) -> Seq<(usize, usize)>
    decreases m,
{
    if m <= 0 {
        Seq::empty()
    } else {
        let rest = blocked_pairs(new_pos, attendees, grid, placements, musician, m - 1);
        if grid.positions@[m - 1].taken {
            rest
        } else {
            rest + blocked_row(
                (m - 1) as usize,
                grid.positions@[m - 1].p,
                new_pos,
                attendees,
                placements,
                musician,
                attendees.len() as int,
            )
        }
    }
}

/// What the pair takes from the score of position `p`: the impact of its
/// attendee, if it is a pair of `p` and no pillar hides `p` from the
/// attendee anyway.
pub open spec fn pair_impact(
    instrument: Instrument,
    attendees: Seq<Attendee>,
    grid: Grid,
    pillar_blockage: PillarBlockageMap,
    pair: (usize, usize),
    p: int,
) -> int {
    if pair.0 == p && !pillar_blockage.blocks(pair.0 as int, pair.1 as int) {
        impact_of(attendees[pair.1 as int], instrument, grid.positions@[p].p)
    } else {
        0
    }
}

/// What the pairs together take from the score of position `p`.
pub open spec fn pair_impact_sum(
    instrument: Instrument,
    attendees: Seq<Attendee>,
    grid: Grid,
    pillar_blockage: PillarBlockageMap,
    pairs: Seq<(usize, usize)>,
    p: int,
) -> int
    decreases pairs.len(),
{
    if pairs.len() == 0 {
        0
    } else {
        pair_impact_sum(instrument, attendees, grid, pillar_blockage, pairs.drop_last(), p)
            + pair_impact(instrument, attendees, grid, pillar_blockage, pairs.last(), p)
    }
}

/// Every pair names a position of the grid and an attendee.
pub open spec fn pairs_in_range(pairs: Seq<(usize, usize)>, positions: int, attendees: int) -> bool {
    forall|k: int|
        0 <= k < pairs.len() ==> (#[trigger] pairs[k]).0 < positions && pairs[k].1 < attendees
}

/// One of the first `n` pairs lowers the score of position `idx`.
pub open spec fn lowered_by(
    pillar_blockage: PillarBlockageMap,
    pairs: Seq<(usize, usize)>,
    idx: int,
    n: int,
) -> bool {
    exists|k: int|
        0 <= k < n && (#[trigger] pairs[k]).0 == idx && !pillar_blockage.blocks(
            pairs[k].0 as int,
            pairs[k].1 as int,
        )
}

/// The best position of a map is no longer known to be the best: it was
/// taken, or its score was lowered.
pub open spec fn best_invalidated(
    best_score_pos_idx: usize,
    new_taken_positions: Set<usize>,
    pillar_blockage: PillarBlockageMap,
    pairs: Seq<(usize, usize)>,
) -> bool {
    new_taken_positions.contains(best_score_pos_idx) || lowered_by(
        pillar_blockage,
        pairs,
        best_score_pos_idx as int,
        pairs.len() as int,
    )
}

/// The map has a score within range for each of `n` positions.
pub open spec fn scores_bounded(map: ImpactMap, n: int) -> bool {
    &&& map.scores@.len() == n
    &&& forall|p: int| 0 <= p < n ==> -SCORE_LIMIT <= (#[trigger] map.scores@[p]).0 <= SCORE_LIMIT
}

/// The best position of the map is free and has the best score, and the
/// score of every free position is what the attendees award a musician of
/// `instrument` there, given who is placed.
pub open spec fn map_consistent(
    map: ImpactMap,
    instrument: Instrument,
    attendees: Seq<Attendee>,
    grid: Grid,
    pillars: Seq<PillarDto>,
    placements: Seq<Option<Point2D>>,
) -> bool {
    &&& map.best_score_pos_idx < grid.positions@.len()
    &&& !grid.positions@[map.best_score_pos_idx as int].taken
    &&& map.best_score == map.scores@[map.best_score_pos_idx as int]
    &&& forall|p: int|
        0 <= p < grid.positions@.len() && !(#[trigger] grid.positions@[p]).taken
            ==> map.scores@[p].0 == position_score(
            instrument,
            attendees,
            grid.positions@[p].p,
            pillars,
            placements,
            attendees.len() as int,
        )
}

/// A musician, number `musician`, who had no place in `before`, came to
/// stand at `new_pos`: `grid` is `grid_before` with the positions taken
/// that are too near to `new_pos`, `new_taken_positions` holds those, and
/// `pairs` lists the free positions with the attendees from whom the
/// newcomer newly hides them.
pub open spec fn follows_placing(
    attendees: Seq<Attendee>,
    grid_before: Grid,
    grid: Grid,
    pillars: Seq<PillarDto>,
    pillar_blockage: PillarBlockageMap,
    before: Seq<Option<Point2D>>,
    musician: int,
    new_pos: Point2D,
    new_taken_positions: Set<usize>,
    pairs: Seq<(usize, usize)>,
) -> bool {
    &&& attendees.len() <= ATTENDEE_LIMIT
    &&& 0 <= musician < before.len()
    &&& before[musician].is_none()
    &&& grid.positions@.len() == grid_before.positions@.len()
    &&& forall|p: int|
        0 <= p < grid.positions@.len() ==> (#[trigger] grid.positions@[p]).p
            == grid_before.positions@[p].p
    &&& forall|p: int|
        0 <= p < grid.positions@.len() ==> (#[trigger] grid.positions@[p]).taken == (
        grid_before.positions@[p].taken || dist2(grid_before.positions@[p].p, new_pos)
            <= SEPARATION_SQ)
    &&& forall|q: usize| #[trigger]
        new_taken_positions.contains(q) <==> (q < grid_before.positions@.len() && dist2(
            grid_before.positions@[q as int].p,
            new_pos,
        ) <= SEPARATION_SQ)
    &&& pillar_blockage.matches(grid, pillars, attendees)
    &&& pairs == blocked_pairs(
        new_pos,
        attendees,
        grid,
        before.update(musician, Some(new_pos)),
        musician,
        grid.positions@.len() as int,
    )
}

/// One more pair adds its impact to the sum.
pub proof fn lemma_pair_impact_sum_step(
    instrument: Instrument,
    attendees: Seq<Attendee>,
    grid: Grid,
    pillar_blockage: PillarBlockageMap,
    pairs: Seq<(usize, usize)>,
    k: int,
    p: int,
)
    requires
        0 <= k < pairs.len(),
    ensures
        pair_impact_sum(instrument, attendees, grid, pillar_blockage, pairs.take(k + 1), p)
            == pair_impact_sum(instrument, attendees, grid, pillar_blockage, pairs.take(k), p)
            + pair_impact(instrument, attendees, grid, pillar_blockage, pairs[k], p),
{
    assert(pairs.take(k + 1).drop_last() =~= pairs.take(k));
    assert(pairs.take(k + 1).last() == pairs[k]);
}

/// What the first `n` attendees award a musician of `instrument` at
/// `pos`, computed from the placement alone: the sum of the impacts of
/// those from whom neither a pillar nor a placed musician hides `pos`.
pub open spec fn position_score(
    instrument: Instrument,
    attendees: Seq<Attendee>,
    pos: Point2D,
    pillars: Seq<PillarDto>,
    placements: Seq<Option<Point2D>>,
    n: int,
) -> int
    decreases n,
{
    if n <= 0 {
        0
    } else {
        position_score(instrument, attendees, pos, pillars, placements, n - 1) + (
        if blocked_by_pillar(attendees[n - 1].position(), pos, pillars) || blocked_by_musician(
            attendees[n - 1].position(),
            pos,
            placements,
            -1,
        ) {
            0
        } else {
            impact_of(attendees[n - 1], instrument, pos)
        })
    }
}

/// What the first `n` attendees no longer award a musician of
/// `instrument` at position `idx_pos` once another comes to stand at
/// `new_pos`: the sum of the impacts of those from whom the newcomer newly
/// hides the position, and from whom no pillar hid it.
pub open spec fn newly_blocked_sum(
    instrument: Instrument,
    attendees: Seq<Attendee>,
    idx_pos: int,
    pos: Point2D,
    pillar_blockage: PillarBlockageMap,
    new_pos: Point2D,
    placements: Seq<Option<Point2D>>,
    musician: int,
    n: int,
) -> int
    decreases n,
{
    if n <= 0 {
        0
    } else {
        newly_blocked_sum(
            instrument,
            attendees,
            idx_pos,
            pos,
            pillar_blockage,
            new_pos,
            placements,
            musician,
            n - 1,
        ) + (if newly_blocked(attendees[n - 1].position(), pos, new_pos, placements, musician)
            && !pillar_blockage.blocks(idx_pos, n - 1) {
            impact_of(attendees[n - 1], instrument, pos)
        } else {
            0
        })
    }
}

/// The sum over `n` attendees is bounded by `n` impacts.
pub proof fn lemma_position_score_bound(
    instrument: Instrument,
    attendees: Seq<Attendee>,
    pos: Point2D,
    pillars: Seq<PillarDto>,
    placements: Seq<Option<Point2D>>,
    n: int,
)
    requires
        attendees_wf(attendees),
        tastes_cover(attendees, instrument),
        0 <= n <= attendees.len(),
    ensures
        -(n * IMPACT_LIMIT) <= position_score(instrument, attendees, pos, pillars, placements, n)
            <= n * IMPACT_LIMIT,
    decreases n,
{
    if n > 0 {
        lemma_position_score_bound(instrument, attendees, pos, pillars, placements, n - 1);
        assert(attendees[n - 1].wf());
        lemma_impact_bound(attendees[n - 1], instrument, pos);
    }
}

/// While no musician is placed, the score of a position is the sum that
/// leaves out the attendees of the pillar blockage map.
pub proof fn lemma_position_score_initial(
    instrument: Instrument,
    attendees: Seq<Attendee>,
    grid: Grid,
    idx_pos: int,
    pillars: Seq<PillarDto>,
    pillar_blockage: PillarBlockageMap,
    placements: Seq<Option<Point2D>>,
    n: int,
)
    requires
        pillar_blockage.matches(grid, pillars, attendees),
        0 <= idx_pos < grid.positions@.len(),
        0 <= n <= attendees.len(),
        forall|j: int| 0 <= j < placements.len() ==> (#[trigger] placements[j]).is_none(),
    ensures
        position_score(instrument, attendees, grid.positions@[idx_pos].p, pillars, placements, n)
            == unblocked_impact_sum(
            instrument,
            attendees,
            idx_pos,
            grid.positions@[idx_pos].p,
            pillar_blockage,
            n,
        ),
    decreases n,
{
    if n > 0 {
        lemma_position_score_initial(
            instrument,
            attendees,
            grid,
            idx_pos,
            pillars,
            pillar_blockage,
            placements,
            n - 1,
        );
        assert(pillar_blockage.blocks(idx_pos, n - 1) == blocked_by_pillar(
            attendees[n - 1].position(),
            grid.positions@[idx_pos].p,
            pillars,
        ));
    }
}

/// When musician `musician` comes to stand at `new_pos`, a musician hides
/// `target` from the attendee if one did before or the newcomer does.
pub proof fn lemma_blocked_after_placing(
    attendee: Point2D,
    target: Point2D,
    before: Seq<Option<Point2D>>,
    musician: int,
    new_pos: Point2D,
)
    requires
        0 <= musician < before.len(),
        before[musician].is_none(),
    ensures
        blocked_by_musician(attendee, target, before.update(musician, Some(new_pos)), musician)
            == blocked_by_musician(attendee, target, before, -1),
        blocked_by_musician(attendee, target, before.update(musician, Some(new_pos)), -1) == (
        blocked_by_musician(attendee, target, before, -1) || segment_hits_disk(
            attendee,
            target,
            new_pos,
            MUSICIAN_RADIUS as int,
        )),
{
    let after = before.update(musician, Some(new_pos));
    if blocked_by_musician(attendee, target, before, -1) {
        let j = choose|j: int|
            0 <= j < before.len() && j != -1 && (#[trigger] before[j]).is_some()
                && segment_hits_disk(attendee, target, before[j].unwrap(), MUSICIAN_RADIUS as int);
        assert(after[j] == before[j]);
        assert(after[j].is_some());
    }
    if blocked_by_musician(attendee, target, after, musician) {
        let j = choose|j: int|
            0 <= j < after.len() && j != musician && (#[trigger] after[j]).is_some()
                && segment_hits_disk(attendee, target, after[j].unwrap(), MUSICIAN_RADIUS as int);
        assert(before[j] == after[j]);
        assert(before[j].is_some());
    }
    if blocked_by_musician(attendee, target, after, -1) {
        let j = choose|j: int|
            0 <= j < after.len() && j != -1 && (#[trigger] after[j]).is_some()
                && segment_hits_disk(attendee, target, after[j].unwrap(), MUSICIAN_RADIUS as int);
        if j != musician {
            assert(before[j] == after[j]);
            assert(before[j].is_some());
        }
    }
    if segment_hits_disk(attendee, target, new_pos, MUSICIAN_RADIUS as int) {
        assert(after[musician].is_some());
    }
}

/// Placing a musician lowers the score of a position by the impacts of
/// the attendees from whom the newcomer newly hides it.
pub proof fn lemma_position_score_step(
    instrument: Instrument,
    attendees: Seq<Attendee>,
    grid: Grid,
    idx_pos: int,
    pillars: Seq<PillarDto>,
    pillar_blockage: PillarBlockageMap,
    before: Seq<Option<Point2D>>,
    musician: int,
    new_pos: Point2D,
    n: int,
)
    requires
        pillar_blockage.matches(grid, pillars, attendees),
        0 <= idx_pos < grid.positions@.len(),
        0 <= n <= attendees.len(),
        0 <= musician < before.len(),
        before[musician].is_none(),
    ensures
        position_score(
            instrument,
            attendees,
            grid.positions@[idx_pos].p,
            pillars,
            before.update(musician, Some(new_pos)),
            n,
        ) == position_score(instrument, attendees, grid.positions@[idx_pos].p, pillars, before, n)
            - newly_blocked_sum(
            instrument,
            attendees,
            idx_pos,
            grid.positions@[idx_pos].p,
            pillar_blockage,
            new_pos,
            before.update(musician, Some(new_pos)),
            musician,
            n,
        ),
    decreases n,
{
    if n > 0 {
        lemma_position_score_step(
            instrument,
            attendees,
            grid,
            idx_pos,
            pillars,
            pillar_blockage,
            before,
            musician,
            new_pos,
            n - 1,
        );
        let pos = grid.positions@[idx_pos].p;
        lemma_blocked_after_placing(attendees[n - 1].position(), pos, before, musician, new_pos);
        assert(pillar_blockage.blocks(idx_pos, n - 1) == blocked_by_pillar(
            attendees[n - 1].position(),
            pos,
            pillars,
        ));
    }
}

/// The sum over two lists of pairs is the sum of the sums.
pub proof fn lemma_pair_impact_sum_concat(
    instrument: Instrument,
    attendees: Seq<Attendee>,
    grid: Grid,
    pillar_blockage: PillarBlockageMap,
    front: Seq<(usize, usize)>,
    back: Seq<(usize, usize)>,
    p: int,
)
    ensures
        pair_impact_sum(instrument, attendees, grid, pillar_blockage, front + back, p)
            == pair_impact_sum(instrument, attendees, grid, pillar_blockage, front, p)
            + pair_impact_sum(instrument, attendees, grid, pillar_blockage, back, p),
    decreases back.len(),
{
    if back.len() == 0 {
        assert(front + back =~= front);
    } else {
        assert((front + back).drop_last() =~= front + back.drop_last());
        assert((front + back).last() == back.last());
        lemma_pair_impact_sum_concat(
            instrument,
            attendees,
            grid,
            pillar_blockage,
            front,
            back.drop_last(),
            p,
        );
    }
}

/// The pairs of one position take from the score of that position what
/// its newly hidden attendees awarded, and nothing from any other.
pub proof fn lemma_blocked_row_sum(
    instrument: Instrument,
    attendees: Seq<Attendee>,
    grid: Grid,
    pillar_blockage: PillarBlockageMap,
    idx_pos: usize,
    new_pos: Point2D,
    placements: Seq<Option<Point2D>>,
    musician: int,
    n: int,
    p: int,
)
    requires
        0 <= idx_pos < grid.positions@.len(),
        0 <= n <= attendees.len(),
        attendees.len() <= usize::MAX,
    ensures
        pairs_in_range(
            blocked_row(
                idx_pos,
                grid.positions@[idx_pos as int].p,
                new_pos,
                attendees,
                placements,
                musician,
                n,
            ),
            grid.positions@.len() as int,
            attendees.len() as int,
        ),
        pair_impact_sum(
            instrument,
            attendees,
            grid,
            pillar_blockage,
            blocked_row(
                idx_pos,
                grid.positions@[idx_pos as int].p,
                new_pos,
                attendees,
                placements,
                musician,
                n,
            ),
            p,
        ) == if p == idx_pos {
            newly_blocked_sum(
                instrument,
                attendees,
                p,
                grid.positions@[p].p,
                pillar_blockage,
                new_pos,
                placements,
                musician,
                n,
            )
        } else {
            0
        },
    decreases n,
{
    if n > 0 {
        lemma_blocked_row_sum(
            instrument,
            attendees,
            grid,
            pillar_blockage,
            idx_pos,
            new_pos,
            placements,
            musician,
            n - 1,
            p,
        );
        let pos = grid.positions@[idx_pos as int].p;
        let rest = blocked_row(idx_pos, pos, new_pos, attendees, placements, musician, n - 1);
        if newly_blocked(attendees[n - 1].position(), pos, new_pos, placements, musician) {
            let row = rest.push((idx_pos, (n - 1) as usize));
            assert(row.drop_last() =~= rest);
            assert(row.last() == (idx_pos, (n - 1) as usize));
        }
    }
}

/// The listed pairs take from the score of a free position what its
/// newly hidden attendees awarded, and nothing from a taken one.
pub proof fn lemma_blocked_pairs_sum(
    instrument: Instrument,
    attendees: Seq<Attendee>,
    grid: Grid,
    pillar_blockage: PillarBlockageMap,
    new_pos: Point2D,
    placements: Seq<Option<Point2D>>,
    musician: int,
    m: int,
    p: int,
)
    requires
        0 <= m <= grid.positions@.len(),
        grid.positions@.len() <= usize::MAX,
        attendees.len() <= usize::MAX,
    ensures
        pairs_in_range(
            blocked_pairs(new_pos, attendees, grid, placements, musician, m),
            grid.positions@.len() as int,
            attendees.len() as int,
        ),
        pair_impact_sum(
            instrument,
            attendees,
            grid,
            pillar_blockage,
            blocked_pairs(new_pos, attendees, grid, placements, musician, m),
            p,
        ) == if 0 <= p < m && !grid.positions@[p].taken {
            newly_blocked_sum(
                instrument,
                attendees,
                p,
                grid.positions@[p].p,
                pillar_blockage,
                new_pos,
                placements,
                musician,
                attendees.len() as int,
            )
        } else {
            0
        },
    decreases m,
{
    if m > 0 {
        lemma_blocked_pairs_sum(
            instrument,
            attendees,
            grid,
            pillar_blockage,
            new_pos,
            placements,
            musician,
            m - 1,
            p,
        );
        if !grid.positions@[m - 1].taken {
            let rest = blocked_pairs(new_pos, attendees, grid, placements, musician, m - 1);
            let row = blocked_row(
                (m - 1) as usize,
                grid.positions@[m - 1].p,
                new_pos,
                attendees,
                placements,
                musician,
                attendees.len() as int,
            );
            lemma_blocked_row_sum(
                instrument,
                attendees,
                grid,
                pillar_blockage,
                (m - 1) as usize,
                new_pos,
                placements,
                musician,
                attendees.len() as int,
                p,
            );
            lemma_pair_impact_sum_concat(
                instrument,
                attendees,
                grid,
                pillar_blockage,
                rest,
                row,
                p,
            );
        }
    }
}

/// Pairs of which none lowers the score of position `idx` take nothing
/// from it.
pub proof fn lemma_not_lowered(
    instrument: Instrument,
    attendees: Seq<Attendee>,
    grid: Grid,
    pillar_blockage: PillarBlockageMap,
    pairs: Seq<(usize, usize)>,
    idx: int,
)
    requires
        !lowered_by(pillar_blockage, pairs, idx, pairs.len() as int),
    ensures
        pair_impact_sum(instrument, attendees, grid, pillar_blockage, pairs, idx) == 0,
    decreases pairs.len(),
{
    if pairs.len() > 0 {
        let front = pairs.drop_last();
        assert forall|k: int| 0 <= k < front.len() implies !((#[trigger] front[k]).0 == idx
            && !pillar_blockage.blocks(front[k].0 as int, front[k].1 as int)) by {
            assert(front[k] == pairs[k]);
        }
        lemma_not_lowered(instrument, attendees, grid, pillar_blockage, front, idx);
        assert(pairs.last() == pairs[pairs.len() - 1]);
    }
}

/// What the attendees award a musician at each candidate position, and
/// the best free position.
#[derive(Clone, Debug)]
pub struct ImpactMap {
    pub scores: Vec<Score>,
    pub best_score_pos_idx: usize,
    pub best_score: Score,
}

/// An impact map that agreed with the placement, and was updated with the
/// pairs newly hidden by a musician who came to stand on a free position,
/// agrees with the new placement on the new grid.
pub proof fn lemma_map_update_consistent(
    map_before: ImpactMap,
    map: ImpactMap,
    instrument: Instrument,
    attendees: Seq<Attendee>,
    grid_before: Grid,
    grid: Grid,
    pillars: Seq<PillarDto>,
    pillar_blockage: PillarBlockageMap,
    before: Seq<Option<Point2D>>,
    musician: int,
    new_pos: Point2D,
    new_taken_positions: Set<usize>,
    pairs: Seq<(usize, usize)>,
)
    requires
        attendees_wf(attendees),
        tastes_cover(attendees, instrument),
        grid.positions@.len() <= usize::MAX,
        grid.has_free_position(),
        follows_placing(
            attendees,
            grid_before,
            grid,
            pillars,
            pillar_blockage,
            before,
            musician,
            new_pos,
            new_taken_positions,
            pairs,
        ),
        map_consistent(map_before, instrument, attendees, grid_before, pillars, before),
        scores_bounded(map_before, grid_before.positions@.len() as int),
        map.scores@.len() == map_before.scores@.len(),
        forall|p: int|
            0 <= p < grid.positions@.len() ==> (#[trigger] map.scores@[p]).0
                == map_before.scores@[p].0 - pair_impact_sum(
                instrument,
                attendees,
                grid,
                pillar_blockage,
                pairs,
                p,
            ),
        best_invalidated(
            map_before.best_score_pos_idx,
            new_taken_positions,
            pillar_blockage,
            pairs,
        ) ==> is_best(map.scores@, grid, map.best_score_pos_idx as int, map.best_score),
        !best_invalidated(
            map_before.best_score_pos_idx,
            new_taken_positions,
            pillar_blockage,
            pairs,
        ) ==> map.best_score_pos_idx == map_before.best_score_pos_idx && map.best_score
            == map_before.best_score,
    ensures
        map_consistent(
            map,
            instrument,
            attendees,
            grid,
            pillars,
            before.update(musician, Some(new_pos)),
        ),
        scores_bounded(map, grid.positions@.len() as int),
{
    let after = before.update(musician, Some(new_pos));
    let n = attendees.len() as int;
    assert forall|p: int| 0 <= p < grid.positions@.len() implies -SCORE_LIMIT <= (
    #[trigger] map.scores@[p]).0 <= SCORE_LIMIT && (!grid.positions@[p].taken ==> map.scores@[p].0
        == position_score(instrument, attendees, grid.positions@[p].p, pillars, after, n)) by {
        lemma_blocked_pairs_sum(
            instrument,
            attendees,
            grid,
            pillar_blockage,
            new_pos,
            after,
            musician,
            grid.positions@.len() as int,
            p,
        );
        if !grid.positions@[p].taken {
            assert(!grid_before.positions@[p].taken);
            lemma_position_score_step(
                instrument,
                attendees,
                grid,
                p,
                pillars,
                pillar_blockage,
                before,
                musician,
                new_pos,
                n,
            );
            lemma_position_score_bound(
                instrument,
                attendees,
                grid.positions@[p].p,
                pillars,
                after,
                n,
            );
            assert(map_before.scores@[p].0 == position_score(
                instrument,
                attendees,
                grid_before.positions@[p].p,
                pillars,
                before,
                n,
            ));
        } else {
            assert(-SCORE_LIMIT <= map_before.scores@[p].0 <= SCORE_LIMIT);
        }
    }
    if !best_invalidated(
        map_before.best_score_pos_idx,
        new_taken_positions,
        pillar_blockage,
        pairs,
    ) {
        let b = map_before.best_score_pos_idx;
        lemma_not_lowered(instrument, attendees, grid, pillar_blockage, pairs, b as int);
        assert(!new_taken_positions.contains(b));
        assert(!grid.positions@[b as int].taken);
        assert(map.scores@[b as int].0 == map_before.scores@[b as int].0);
    }
}

impl ImpactMap {
    /// What the attendees award a musician of `instrument` at candidate
    /// position `idx_pos`, counting those only from whom no pillar hides the
    /// position.
    pub fn score_instrument(
        attendees: &Vec<Attendee>,
        idx_pos: usize,
        placement: &Point2D,
        instrument: &Instrument,
        pillar_blockage: &PillarBlockageMap,
    ) -> (score: Score)
        requires
            attendees_wf(attendees@),
            tastes_cover(attendees@, *instrument),
            attendees@.len() <= ATTENDEE_LIMIT,
            placement.wf(),
        ensures
            score.0 == unblocked_impact_sum(
                *instrument,
                attendees@,
                idx_pos as int,
                *placement,
                *pillar_blockage,
                attendees@.len() as int,
            ),
            -SCORE_LIMIT <= score.0 <= SCORE_LIMIT,
    {
        let mut score: i128 = 0;
        let mut idx: usize = 0;
        while idx < attendees.len()
            invariant
                idx <= attendees@.len(),
                attendees_wf(attendees@),
                tastes_cover(attendees@, *instrument),
                attendees@.len() <= ATTENDEE_LIMIT,
                placement.wf(),
                score == unblocked_impact_sum(
                    *instrument,
                    attendees@,
                    idx_pos as int,
                    *placement,
                    *pillar_blockage,
                    idx as int,
                ),
                -(idx * IMPACT_LIMIT) <= score <= idx * IMPACT_LIMIT,
            decreases attendees@.len() - idx,
        {
            if !pillar_blockage.is_sound_blocked(idx_pos, idx) {
                let attendee = &attendees[idx];
                proof {
                    assert(attendees@[idx as int].wf());
                    lemma_impact_bound(*attendee, *instrument, *placement);
                }
                score += calculate_impact(attendee, instrument, placement) as i128;
            }
            idx += 1;
        }
        Score(score)
    }

    /// The best free position and its score.
    pub fn get_best_score(scores: &Vec<Score>, grid: &Grid) -> (best: (usize, Score))
        requires
            scores@.len() == grid.positions@.len(),
            grid.has_free_position(),
        ensures
            is_best(scores@, *grid, best.0 as int, best.1),
    {
        let mut best_idx: usize = 0;
        let mut best_score: Score = Score(0);
        let mut found: bool = false;
        let mut idx: usize = 0;
        while idx < scores.len()
            invariant
                idx <= scores@.len(),
                scores@.len() == grid.positions@.len(),
                found ==> best_idx < idx && !grid.positions@[best_idx as int].taken
                    && scores@[best_idx as int] == best_score,
                found ==> forall|q: int|
                    0 <= q < idx && !(#[trigger] grid.positions@[q]).taken ==> scores@[q].0
                        <= best_score.0,
                found ==> forall|q: int|
                    best_idx < q < idx && !(#[trigger] grid.positions@[q]).taken ==> scores@[q].0
                        < best_score.0,
                !found ==> forall|q: int| 0 <= q < idx ==> (#[trigger] grid.positions@[q]).taken,
            decreases scores@.len() - idx,
        {
            if !grid.positions[idx].taken {
                if !found || scores[idx].0 >= best_score.0 {
                    best_idx = idx;
                    best_score = scores[idx];
                    found = true;
                }
            }
            idx += 1;
        }
        (best_idx, best_score)
    }

    /// The impact map of `instrument` on a grid on which no musician
    /// stands yet.
    pub fn new(
        instrument: &Instrument,
        attendees: &Vec<Attendee>,
        grid: &Grid,
        pillar_blockage: &PillarBlockageMap,
    ) -> (map: Self)
        requires
            attendees_wf(attendees@),
            tastes_cover(attendees@, *instrument),
            attendees@.len() <= ATTENDEE_LIMIT,
            grid.wf(),
            grid.has_free_position(),
        ensures
            map.scores@.len() == grid.positions@.len(),
            forall|p: int|
                0 <= p < grid.positions@.len() ==> (#[trigger] map.scores@[p]).0
                    == unblocked_impact_sum(
                    *instrument,
                    attendees@,
                    p,
                    grid.positions@[p].p,
                    *pillar_blockage,
                    attendees@.len() as int,
                ),
            forall|p: int|
                0 <= p < grid.positions@.len() ==> -SCORE_LIMIT <= (#[trigger] map.scores@[p]).0
                    <= SCORE_LIMIT,
            is_best(map.scores@, *grid, map.best_score_pos_idx as int, map.best_score),
    {
        let mut scores: Vec<Score> = Vec::new();
        let mut idx_pos: usize = 0;
        while idx_pos < grid.positions.len()
            invariant
                idx_pos <= grid.positions@.len(),
                attendees_wf(attendees@),
                tastes_cover(attendees@, *instrument),
                attendees@.len() <= ATTENDEE_LIMIT,
                grid.wf(),
                scores@.len() == idx_pos,
                forall|p: int|
                    0 <= p < idx_pos ==> (#[trigger] scores@[p]).0 == unblocked_impact_sum(
                        *instrument,
                        attendees@,
                        p,
                        grid.positions@[p].p,
                        *pillar_blockage,
                        attendees@.len() as int,
                    ),
                forall|p: int|
                    0 <= p < idx_pos ==> -SCORE_LIMIT <= (#[trigger] scores@[p]).0 <= SCORE_LIMIT,
            decreases grid.positions@.len() - idx_pos,
        {
            let pos = &grid.positions[idx_pos];
            let score = Self::score_instrument(attendees, idx_pos, &pos.p, instrument, pillar_blockage);
            scores.push(score);
            idx_pos += 1;
        }
        let (best_score_pos_idx, best_score) = Self::get_best_score(&scores, grid);
        ImpactMap { scores, best_score_pos_idx, best_score }
    }

    /// Lists, for every free position, the attendees from whom the
    /// musician who comes to stand at `new_pos` newly hides it. `musician`
    /// is that musician's number: of `placements` all but this one count as
    /// standing there before.
    pub fn calculate_blocked_positions(
        new_pos: &Point2D,
        attendees: &Vec<Attendee>,
        grid: &Grid,
        placements: &Vec<Option<Point2D>>,
        musician: usize,
    ) -> (pairs: Vec<(usize, usize)>)
        requires
            new_pos.wf(),
            attendees_wf(attendees@),
            grid.wf(),
            placements_wf(placements@),
        ensures
            pairs@ == blocked_pairs(
                *new_pos,
                attendees@,
                *grid,
                placements@,
                musician as int,
                grid.positions@.len() as int,
            ),
    {
        let mut result: Vec<(usize, usize)> = Vec::new();
        let mut idx: usize = 0;
        while idx < grid.positions.len()
            invariant
                idx <= grid.positions@.len(),
                new_pos.wf(),
                attendees_wf(attendees@),
                grid.wf(),
                placements_wf(placements@),
                result@ == blocked_pairs(
                    *new_pos,
                    attendees@,
                    *grid,
                    placements@,
                    musician as int,
                    idx as int,
                ),
            decreases grid.positions@.len() - idx,
        {
            let pos = grid.positions[idx];
            if !pos.taken {
                let ghost before = result@;
                let mut idx_attendee: usize = 0;
                while idx_attendee < attendees.len()
                    invariant
                        idx_attendee <= attendees@.len(),
                        idx < grid.positions@.len(),
                        pos == grid.positions@[idx as int],
                        pos.p.wf(),
                        new_pos.wf(),
                        attendees_wf(attendees@),
                        placements_wf(placements@),
                        result@ == before + blocked_row(
                            idx,
                            pos.p,
                            *new_pos,
                            attendees@,
                            placements@,
                            musician as int,
                            idx_attendee as int,
                        ),
                    decreases attendees@.len() - idx_attendee,
                {
                    assert(attendees@[idx_attendee as int].wf());
                    let attendee = attendees[idx_attendee].as_vec();
                    let ghost row = blocked_row(
                        idx,
                        pos.p,
                        *new_pos,
                        attendees@,
                        placements@,
                        musician as int,
                        idx_attendee as int,
                    );
                    if is_sound_blocked(&pos.p, new_pos, MUSICIAN_RADIUS, &attendee)
                        && !is_blocked_by_musicians(&attendee, &pos.p, placements, musician) {
                        result.push((idx, idx_attendee));
                        assert(result@ =~= before + row.push((idx, idx_attendee)));
                    }
                    idx_attendee += 1;
                }
            }
            idx += 1;
        }
        result
    }

    /// Takes from the scores what the attendees of `blocked_positions` no
    /// longer award, and finds the best free position anew if the known one
    /// was taken or had its score lowered. A map that agreed with the
    /// placement before a musician was placed agrees with the placement
    /// after, when it is updated with the positions that the newcomer took
    /// and the pairs that they newly hide.
    pub fn update(
        &mut self,
        instrument: &Instrument,
        attendees: &Vec<Attendee>,
        grid: &Grid,
        new_taken_positions: &HashSet<usize>,
        blocked_positions: &Vec<(usize, usize)>,
        pillar_blockage: &PillarBlockageMap,
    )
        requires
            old(self).scores@.len() == grid.positions@.len(),
            forall|p: int|
                0 <= p < grid.positions@.len() ==> -SCORE_LIMIT <= (
                #[trigger] old(self).scores@[p]).0 <= SCORE_LIMIT,
            attendees_wf(attendees@),
            tastes_cover(attendees@, *instrument),
            grid.wf(),
            pairs_in_range(
                blocked_positions@,
                grid.positions@.len() as int,
                attendees@.len() as int,
            ),
            best_invalidated(
                old(self).best_score_pos_idx,
                new_taken_positions@,
                *pillar_blockage,
                blocked_positions@,
            ) ==> grid.has_free_position(),
        ensures
            final(self).scores@.len() == old(self).scores@.len(),
            forall|p: int|
                0 <= p < grid.positions@.len() ==> (#[trigger] final(self).scores@[p]).0
                    == old(self).scores@[p].0 - pair_impact_sum(
                    *instrument,
                    attendees@,
                    *grid,
                    *pillar_blockage,
                    blocked_positions@,
                    p,
                ),
            best_invalidated(
                old(self).best_score_pos_idx,
                new_taken_positions@,
                *pillar_blockage,
                blocked_positions@,
            ) ==> is_best(
                final(self).scores@,
                *grid,
                final(self).best_score_pos_idx as int,
                final(self).best_score,
            ),
            !best_invalidated(
                old(self).best_score_pos_idx,
                new_taken_positions@,
                *pillar_blockage,
                blocked_positions@,
            ) ==> final(self).best_score_pos_idx == old(self).best_score_pos_idx
                && final(self).best_score == old(self).best_score,
            forall|
                grid_before: Grid,
                pillars: Seq<PillarDto>,
                before: Seq<Option<Point2D>>,
                musician: int,
                new_pos: Point2D,
            |
                #[trigger] follows_placing(
                    attendees@,
                    grid_before,
                    *grid,
                    pillars,
                    *pillar_blockage,
                    before,
                    musician,
                    new_pos,
                    new_taken_positions@,
                    blocked_positions@,
                ) && map_consistent(
                    *old(self),
                    *instrument,
                    attendees@,
                    grid_before,
                    pillars,
                    before,
                ) ==> map_consistent(
                    *final(self),
                    *instrument,
                    attendees@,
                    *grid,
                    pillars,
                    before.update(musician, Some(new_pos)),
                ) && scores_bounded(*final(self), grid.positions@.len() as int),
    {
        let mut needs_best_score_update = new_taken_positions.contains(&self.best_score_pos_idx);
        let mut k: usize = 0;
        while k < blocked_positions.len()
            invariant
                k <= blocked_positions@.len(),
                self.scores@.len() == grid.positions@.len(),
                self.best_score_pos_idx == old(self).best_score_pos_idx,
                self.best_score == old(self).best_score,
                attendees_wf(attendees@),
                tastes_cover(attendees@, *instrument),
                grid.wf(),
                pairs_in_range(
                    blocked_positions@,
                    grid.positions@.len() as int,
                    attendees@.len() as int,
                ),
                forall|p: int|
                    0 <= p < grid.positions@.len() ==> (#[trigger] self.scores@[p]).0
                        == old(self).scores@[p].0 - pair_impact_sum(
                        *instrument,
                        attendees@,
                        *grid,
                        *pillar_blockage,
                        blocked_positions@.take(k as int),
                        p,
                    ),
                forall|p: int|
                    0 <= p < grid.positions@.len() ==> -SCORE_LIMIT - k * IMPACT_LIMIT <= (
                    #[trigger] self.scores@[p]).0 <= SCORE_LIMIT + k * IMPACT_LIMIT,
                needs_best_score_update == (new_taken_positions@.contains(
                    self.best_score_pos_idx,
                ) || lowered_by(
                    *pillar_blockage,
                    blocked_positions@,
                    self.best_score_pos_idx as int,
                    k as int,
                )),
            decreases blocked_positions@.len() - k,
        {
            let (idx, idx_attendee) = blocked_positions[k];
            let ghost before = self.scores@;
            assert(blocked_positions@[k as int].0 < grid.positions@.len());
            if !pillar_blockage.is_sound_blocked(idx, idx_attendee) {
                let pos = &grid.positions[idx];
                let attendee = &attendees[idx_attendee];
                proof {
                    assert(attendees@[idx_attendee as int].wf());
                    lemma_impact_bound(*attendee, *instrument, pos.p);
                }
                let impact = calculate_impact(attendee, instrument, &pos.p);
                let lowered = Score(self.scores[idx].0 - impact as i128);
                self.scores.set(idx, lowered);
                if idx == self.best_score_pos_idx {
                    needs_best_score_update = true;
                }
            }
            proof {
                assert forall|p: int| 0 <= p < grid.positions@.len() implies (
                #[trigger] self.scores@[p]).0 == old(self).scores@[p].0 - pair_impact_sum(
                    *instrument,
                    attendees@,
                    *grid,
                    *pillar_blockage,
                    blocked_positions@.take(k + 1),
                    p,
                ) by {
                    lemma_pair_impact_sum_step(
                        *instrument,
                        attendees@,
                        *grid,
                        *pillar_blockage,
                        blocked_positions@,
                        k as int,
                        p,
                    );
                    assert(before[p].0 == old(self).scores@[p].0 - pair_impact_sum(
                        *instrument,
                        attendees@,
                        *grid,
                        *pillar_blockage,
                        blocked_positions@.take(k as int),
                        p,
                    ));
                }
                assert forall|p: int| 0 <= p < grid.positions@.len() implies -SCORE_LIMIT - (k
                    + 1) * IMPACT_LIMIT <= (#[trigger] self.scores@[p]).0 <= SCORE_LIMIT + (k + 1)
                    * IMPACT_LIMIT by {
                    assert(-SCORE_LIMIT - k * IMPACT_LIMIT <= before[p].0 <= SCORE_LIMIT + k
                        * IMPACT_LIMIT);
                }
            }
            k += 1;
        }
        assert(blocked_positions@.take(blocked_positions@.len() as int) =~= blocked_positions@);
        if needs_best_score_update {
            let (best_score_pos_idx, best_score) = Self::get_best_score(&self.scores, grid);
            self.best_score_pos_idx = best_score_pos_idx;
            self.best_score = best_score;
        }
        proof {
            assert forall|
                grid_before: Grid,
                pillars: Seq<PillarDto>,
                before: Seq<Option<Point2D>>,
                musician: int,
                new_pos: Point2D,
            |
                #[trigger] follows_placing(
                    attendees@,
                    grid_before,
                    *grid,
                    pillars,
                    *pillar_blockage,
                    before,
                    musician,
                    new_pos,
                    new_taken_positions@,
                    blocked_positions@,
                ) && map_consistent(
                    *old(self),
                    *instrument,
                    attendees@,
                    grid_before,
                    pillars,
                    before,
                ) implies map_consistent(
                *self,
                *instrument,
                attendees@,
                *grid,
                pillars,
                before.update(musician, Some(new_pos)),
            ) && scores_bounded(*self, grid.positions@.len() as int) by {
                if !best_invalidated(
                    old(self).best_score_pos_idx,
                    new_taken_positions@,
                    *pillar_blockage,
                    blocked_positions@,
                ) {
                    let b = old(self).best_score_pos_idx;
                    assert(!new_taken_positions@.contains(b));
                    assert(!grid.positions@[b as int].taken);
                }
                assert(grid.positions@.len() == grid.positions.len());
                lemma_map_update_consistent(
                    *old(self),
                    *self,
                    *instrument,
                    attendees@,
                    grid_before,
                    *grid,
                    pillars,
                    *pillar_blockage,
                    before,
                    musician,
                    new_pos,
                    new_taken_positions@,
                    blocked_positions@,
                );
            }
        }
    }
}

} // verus!
