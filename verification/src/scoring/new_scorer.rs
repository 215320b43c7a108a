//! The same score, found with the help of the collider.

use vstd::prelude::*;

use crate::collider::Collider;
use crate::dto::{tastes_cover, Point2D, ProblemDto, ATTENDEE_LIMIT, MUSICIAN_LIMIT};
use crate::scoring::scorer::{
    attendee_happiness, calculate_closeness_factors, calculate_impact, ceiling_quotient,
    closeness_factors_for, closeness_factors_wf, closeness_of, lemma_impact_bound,
    lemma_scaled_impact_bound, placements_wf, score_of, total_happiness, volumes_view,
    volumes_wf, MAX_VOLUME, TERM_LIMIT, TOTAL_LIMIT,
};
use crate::solvers::Score;

verus! {

/// The closeness factor of every musician, in millionths.
pub fn compute_closeness(problem: &ProblemDto, placements: &Vec<Option<Point2D>>) -> (closeness:
    Vec<u64>)
    requires
        placements_wf(placements@),
        problem.musicians@.len() == placements@.len(),
        problem.musicians@.len() <= MUSICIAN_LIMIT,
    ensures
        closeness@.len() == placements@.len(),
        forall|i: int|
            0 <= i < placements@.len() ==> #[trigger] closeness@[i] == closeness_of(
                problem.musicians@,
                placements@,
                i,
            ),
        forall|i: int|
            0 <= i < placements@.len() ==> #[trigger] closeness@[i]
                <= crate::scoring::scorer::CLOSENESS_LIMIT,
{
    calculate_closeness_factors(&problem.musicians, placements)
}

/// What attendee `attendee_i` awards all musicians together, with the
/// collider telling who is hidden.
pub fn attendee_score(
    collider: &Collider,
    attendee_i: usize,
    musicians_closeness: &Vec<u64>,
    volumes: Option<&Vec<u32>>,
) -> (attendee_score: i128)
    requires
        collider.wf(),
        collider.problem.wf(),
        attendee_i < collider.problem.attendees@.len(),
        collider.placements@.len() == collider.problem.musicians@.len(),
        closeness_factors_wf(musicians_closeness@, collider.placements@.len() as int),
        volumes_wf(volumes_view(volumes), collider.placements@.len() as int),
    ensures
        attendee_score == attendee_happiness(
            collider.problem.attendees@[attendee_i as int],
            collider.problem.musicians@,
            collider.placements@,
            collider.problem.pillars@,
            musicians_closeness@,
            volumes_view(volumes),
            collider.placements@.len() as int,
        ),
        -(MUSICIAN_LIMIT * TERM_LIMIT) <= attendee_score <= MUSICIAN_LIMIT * TERM_LIMIT,
{
    let problem = collider.problem;
    let placements = collider.placements;
    let attendee = &problem.attendees[attendee_i];
    assert(problem.attendees@[attendee_i as int].wf());
    let mut attendee_score: i128 = 0;
    let mut musician_i: usize = 0;
    while musician_i < placements.len()
        invariant
            musician_i <= placements@.len(),
            collider.wf(),
            problem == collider.problem,
            placements == collider.placements,
            problem.wf(),
            attendee_i < problem.attendees@.len(),
            *attendee == problem.attendees@[attendee_i as int],
            attendee.wf(),
            placements@.len() == problem.musicians@.len(),
            closeness_factors_wf(musicians_closeness@, placements@.len() as int),
            volumes_wf(volumes_view(volumes), placements@.len() as int),
            attendee_score == attendee_happiness(
                *attendee,
                problem.musicians@,
                placements@,
                problem.pillars@,
                musicians_closeness@,
                volumes_view(volumes),
                musician_i as int,
            ),
            -(musician_i * TERM_LIMIT) <= attendee_score <= musician_i * TERM_LIMIT,
        decreases placements@.len() - musician_i,
    {
        if let Some(musician_location) = &placements[musician_i] {
            if !collider.is_hidden(attendee_i, musician_i) {
                let instrument_i = &problem.musicians[musician_i];
                proof {
                    assert(tastes_cover(problem.attendees@, problem.musicians@[musician_i as int]));
                    assert(placements@[musician_i as int].unwrap().wf());
                }
                let impact = calculate_impact(attendee, instrument_i, musician_location);
                let volume: u32 = match volumes {
                    Some(vs) => if vs[musician_i] > MAX_VOLUME {
                        MAX_VOLUME
                    } else {
                        vs[musician_i]
                    },
                    None => 1_000_000,
                };
                let closeness: u64 = if musicians_closeness.len() == 0 {
                    1_000_000
                } else {
                    musicians_closeness[musician_i]
                };
                proof {
                    lemma_impact_bound(*attendee, *instrument_i, *musician_location);
                    lemma_scaled_impact_bound(impact as int, volume as int, closeness as int);
                }
                let scaled: i128 = volume as i128 * closeness as i128 * impact as i128;
                let unit_sq: i128 = 1_000_000_000_000;
                attendee_score += ceiling_quotient(scaled, unit_sq);
            }
        }
        musician_i += 1;
    }
    attendee_score
}

/// Scores a placement as `score` does, with a tree over the obstacles to
/// find who may be hidden.
pub fn new_score(problem: &ProblemDto, placements: &Vec<Option<Point2D>>, volumes: Option<&Vec<u32>>) -> (total:
    Score)
    requires
        problem.wf(),
        placements@.len() == problem.musicians@.len(),
        placements_wf(placements@),
        volumes_wf(volumes_view(volumes), problem.musicians@.len() as int),
    ensures
        total.0 == score_of(*problem, placements@, volumes_view(volumes)),
        -TOTAL_LIMIT <= total.0 <= TOTAL_LIMIT,
{
    let collider = Collider::new(problem, placements);
    let has_pillars = problem.pillars.len() > 0;
    let musicians_closeness = if has_pillars {
        compute_closeness(problem, placements)
    } else {
        Vec::new()
    };
    assert(musicians_closeness@ =~= closeness_factors_for(
        problem.pillars@,
        problem.musicians@,
        placements@,
    ));
    let mut total: i128 = 0;
    let mut attendee_i: usize = 0;
    let ghost per_attendee: int = MUSICIAN_LIMIT * TERM_LIMIT;
    while attendee_i < problem.attendees.len()
        invariant
            attendee_i <= problem.attendees@.len(),
            collider.wf(),
            collider.problem == problem,
            collider.placements == placements,
            problem.wf(),
            placements@.len() == problem.musicians@.len(),
            volumes_wf(volumes_view(volumes), problem.musicians@.len() as int),
            musicians_closeness@ == closeness_factors_for(
                problem.pillars@,
                problem.musicians@,
                placements@,
            ),
            closeness_factors_wf(musicians_closeness@, problem.musicians@.len() as int),
            per_attendee == MUSICIAN_LIMIT * TERM_LIMIT,
            total == total_happiness(
                *problem,
                placements@,
                volumes_view(volumes),
                attendee_i as int,
            ),
            -(attendee_i * per_attendee) <= total <= attendee_i * per_attendee,
        decreases problem.attendees@.len() - attendee_i,
    {
        let attendee_score = attendee_score(&collider, attendee_i, &musicians_closeness, volumes);
        assert((attendee_i + 1) * per_attendee == attendee_i * per_attendee + per_attendee)
            by (nonlinear_arith);
        assert(attendee_i * per_attendee <= ATTENDEE_LIMIT * per_attendee) by (nonlinear_arith)
            requires
                attendee_i <= ATTENDEE_LIMIT,
                per_attendee >= 0,
        ;
        total += attendee_score;
        attendee_i += 1;
    }
    assert(attendee_i * per_attendee <= ATTENDEE_LIMIT * per_attendee) by (nonlinear_arith)
        requires
            attendee_i <= ATTENDEE_LIMIT,
            per_attendee >= 0,
    ;
    Score(total)
}

} // verus!
