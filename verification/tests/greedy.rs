use std::collections::HashSet;

use stage_placer::common::{Grid, Position};
use stage_placer::dto::{Attendee, Instrument, PillarDto, Point2D, ProblemDto, SolutionDto};
use stage_placer::geometry::line_circle_intersection;
use stage_placer::scoring::impact_map::{ImpactMap, PillarBlockageMap};
use stage_placer::scoring::scorer::{calculate_impact, score};
use stage_placer::scoring::Scorer;
use stage_placer::solvers::greedy::Greedy;
use stage_placer::solvers::{Problem, Score};

/// Steps in a unit of length.
const U: i64 = 512;

/// The point at a place given in units.
fn point(x: i64, y: i64) -> Point2D {
    Point2D { x: x * U, y: y * U }
}

/// The point at a place given in half units.
fn half(x: i64, y: i64) -> Point2D {
    Point2D { x: x * U / 2, y: y * U / 2 }
}

/// An attendee at a place given in units, with tastes given in whole numbers.
fn attendee(x: i64, y: i64, tastes: &[i64]) -> Attendee {
    Attendee { x: x * U, y: y * U, tastes: tastes.iter().map(|t| t * 1000).collect() }
}

/// A pillar with centre and radius given in units.
fn pillar(x: i64, y: i64, radius: i64) -> PillarDto {
    PillarDto { center: point(x, y), radius: radius * U }
}

fn problem(
    width: i64,
    height: i64,
    musicians: &[u32],
    attendees: Vec<Attendee>,
    pillars: Vec<PillarDto>,
) -> Problem {
    Problem {
        id: "7".to_string(),
        data: ProblemDto {
            room_width: 1000 * U,
            room_height: 1000 * U,
            stage_width: width * U,
            stage_height: height * U,
            stage_bottom_left: point(0, 0),
            musicians: musicians.iter().map(|i| Instrument(*i)).collect(),
            attendees,
            pillars,
        },
        removed_attendees: vec![],
        removed_pillars: vec![],
        scorer: Scorer::default(),
    }
}

fn started(problem: &Problem) -> Greedy {
    let mut solver = Greedy::default();
    solver.initialize(problem.clone(), SolutionDto::default());
    solver
}

/// What the attendees award a musician of the instrument at the position, given
/// who is placed: computed anew, attendee by attendee.
fn from_scratch(solver: &Greedy, instrument: u32, pos: Point2D) -> i128 {
    let data = &solver.problem.data;
    let mut total: i128 = 0;
    for a in &data.attendees {
        let eye = Point2D { x: a.x, y: a.y };
        let behind_pillar =
            data.pillars.iter().any(|p| line_circle_intersection(&eye, &pos, &p.center, p.radius));
        let behind_musician = solver
            .placements
            .iter()
            .flatten()
            .any(|m| line_circle_intersection(&eye, &pos, m, 5 * U));
        if !behind_pillar && !behind_musician {
            total += calculate_impact(a, &Instrument(instrument), &pos) as i128;
        }
    }
    total
}

fn assert_maps_agree(solver: &Greedy) {
    let waiting: HashSet<u32> = solver
        .remaining_musicians
        .iter()
        .map(|i| solver.problem.data.musicians[*i].0)
        .collect();
    for instrument in waiting {
        let map = &solver.impact_maps[instrument as usize];
        for (k, pos) in solver.grid.positions.iter().enumerate() {
            if !pos.taken {
                assert_eq!(map.scores[k].0, from_scratch(solver, instrument, pos.p), "{:?}", pos);
            }
        }
        let best = solver
            .grid
            .positions
            .iter()
            .enumerate()
            .filter(|(_, pos)| !pos.taken)
            .map(|(k, _)| map.scores[k].0)
            .max();
        if let Some(best) = best {
            assert!(!solver.grid.positions[map.best_score_pos_idx].taken);
            assert_eq!(map.best_score.0, map.scores[map.best_score_pos_idx].0);
            assert!(map.best_score.0 <= best);
        }
    }
}

#[test]
fn pillar_blockage_lists_the_hidden_pairs() {
    let p = problem(
        60,
        20,
        &[0],
        vec![attendee(30, -50, &[10]), attendee(-40, 10, &[10])],
        vec![pillar(30, -20, 4)],
    );
    let grid = Grid::new(&p);
    assert_eq!(grid.positions.len(), 81);
    let map = PillarBlockageMap::new(&grid, &p.data.pillars, &p.data.attendees);
    assert_eq!(map.blocked_positions.len(), grid.positions.len());
    for (k, pos) in grid.positions.iter().enumerate() {
        for (a, who) in p.data.attendees.iter().enumerate() {
            let eye = Point2D { x: who.x, y: who.y };
            let hidden = line_circle_intersection(&eye, &pos.p, &point(30, -20), 4 * U);
            assert_eq!(map.is_sound_blocked(k, a), hidden);
        }
    }
    // straight ahead of the first attendee the pillar is in the way
    assert_eq!(grid.positions[40].p, point(30, 10));
    assert!(map.is_sound_blocked(40, 0));
    assert!(!map.is_sound_blocked(0, 0));
    assert!(!map.is_sound_blocked(40, 1));
    assert!(!map.is_sound_blocked(4000, 0));
    assert!(!map.is_sound_blocked(0, 4000));
}

#[test]
fn pillar_blockage_is_empty_without_pillars() {
    let p = problem(60, 20, &[0], vec![attendee(30, -50, &[10])], vec![]);
    let grid = Grid::new(&p);
    let map = PillarBlockageMap::new(&grid, &p.data.pillars, &p.data.attendees);
    assert!(map.blocked_positions.is_empty());
    assert!(!map.is_sound_blocked(0, 0));
}

#[test]
fn impact_map_of_an_empty_stage() {
    let p = problem(40, 20, &[0], vec![attendee(20, -10, &[1000]), attendee(20, 30, &[-10])], vec![]);
    let grid = Grid::new(&p);
    let blockage = PillarBlockageMap::new(&grid, &p.data.pillars, &p.data.attendees);
    let map = ImpactMap::new(&Instrument(0), &p.data.attendees, &grid, &blockage);
    assert_eq!(map.scores.len(), 41);
    // at (20, 10): 1000e6 / 400 - 10e6 / 400
    assert_eq!(grid.positions[20].p, point(20, 10));
    assert_eq!(map.scores[20].0, 2_500_000 - 25_000);
    // at (10, 10): 1000e6 / 500 - 10e6 / 500
    assert_eq!(map.scores[0].0, 2_000_000 - 20_000);
    // at (19.5, 10): 1000e6 / 400.25 - 10e6 / 400.25, each rounded up
    assert_eq!(map.scores[19].0, 2_498_439 - 24_984);
    assert_eq!(map.best_score_pos_idx, 20);
    assert_eq!(map.best_score, Score(2_475_000));
}

#[test]
fn best_position_is_the_last_of_the_best() {
    let scores = vec![Score(5), Score(9), Score(9), Score(3), Score(9), Score(12)];
    let mut grid = Grid {
        positions: (0..6).map(|k| Position { p: point(k, 0), taken: false }).collect(),
    };
    assert_eq!(ImpactMap::get_best_score(&scores, &grid), (5, Score(12)));
    grid.positions[5].taken = true;
    assert_eq!(ImpactMap::get_best_score(&scores, &grid), (4, Score(9)));
    grid.positions[4].taken = true;
    grid.positions[1].taken = true;
    assert_eq!(ImpactMap::get_best_score(&scores, &grid), (2, Score(9)));
}

#[test]
fn update_takes_what_the_blocked_awarded() {
    let p = problem(
        60,
        20,
        &[0, 0],
        vec![attendee(30, -10, &[1000]), attendee(0, 10, &[20])],
        vec![],
    );
    let mut grid = Grid::new(&p);
    let blockage = PillarBlockageMap::new(&grid, &p.data.pillars, &p.data.attendees);
    let mut map = ImpactMap::new(&Instrument(0), &p.data.attendees, &grid, &blockage);
    assert_eq!(map.best_score_pos_idx, 40);
    let before = map.scores.clone();
    let new_pos = grid.positions[40].p;
    assert_eq!(new_pos, point(30, 10));
    let placements = vec![Some(new_pos), None];
    let taken = grid.take_near(&new_pos);
    let blocked =
        ImpactMap::calculate_blocked_positions(&new_pos, &p.data.attendees, &grid, &placements, 0);
    let mut expected = vec![];
    for k in (0..20).chain(61..81) {
        for (a, who) in p.data.attendees.iter().enumerate() {
            let eye = Point2D { x: who.x, y: who.y };
            if line_circle_intersection(&eye, &grid.positions[k].p, &new_pos, 5 * U) {
                expected.push((k, a));
            }
        }
    }
    assert_eq!(blocked, expected);
    // the musician at (30, 10) hides everything further to the right from the
    // second attendee, who looks along the row, and nothing from the first
    assert_eq!(blocked, (61..=80).map(|k| (k, 1)).collect::<Vec<_>>());
    map.update(&Instrument(0), &p.data.attendees, &grid, &taken, &blocked, &blockage);
    for k in 0..81 {
        let lost: i128 = (0..2)
            .filter(|a| blocked.contains(&(k, *a)))
            .map(|a| {
                calculate_impact(&p.data.attendees[a], &Instrument(0), &grid.positions[k].p) as i128
            })
            .sum();
        assert_eq!(map.scores[k].0, before[k].0 - lost);
    }
    // at (41, 10) the first attendee is left: 1000e6 / 521
    assert_eq!(grid.positions[62].p, point(41, 10));
    assert_eq!(map.scores[62].0, 1_919_386);
    // the best position was taken: the best is found anew among the free ones
    assert!(!grid.positions[map.best_score_pos_idx].taken);
    assert_eq!(map.best_score_pos_idx, 19);
    assert_eq!(map.best_score, map.scores[19]);
}

#[test]
fn blocked_pairs_leave_out_what_was_hidden_before() {
    let p = problem(100, 20, &[0, 0], vec![attendee(0, 10, &[50])], vec![]);
    let mut grid = Grid::new(&p);
    let first = point(30, 10);
    let second = point(60, 10);
    grid.take_near(&first);
    grid.take_near(&second);
    let placements = vec![Some(first), Some(second)];
    // the first musician hides everything further back already
    let blocked =
        ImpactMap::calculate_blocked_positions(&second, &p.data.attendees, &grid, &placements, 1);
    assert_eq!(blocked, vec![]);
    // had the first not been there, the second would hide what is behind the second
    let alone = vec![None, Some(second)];
    let blocked =
        ImpactMap::calculate_blocked_positions(&second, &p.data.attendees, &grid, &alone, 1);
    assert_eq!(blocked, (121..=160).map(|k| (k, 0)).collect::<Vec<_>>());
}

#[test]
fn update_leaves_the_best_where_nothing_touches_it() {
    let p = problem(60, 20, &[0, 0], vec![attendee(30, -10, &[1000])], vec![]);
    let grid = Grid::new(&p);
    let blockage = PillarBlockageMap::default();
    let mut map = ImpactMap::new(&Instrument(0), &p.data.attendees, &grid, &blockage);
    assert_eq!(map.best_score_pos_idx, 40);
    // a higher score elsewhere is not looked for while the best is not touched
    map.update(&Instrument(0), &p.data.attendees, &grid, &HashSet::new(), &vec![(3, 0)], &blockage);
    assert_eq!(map.best_score_pos_idx, 40);
    let lowered = map.scores[3].0;
    map.update(&Instrument(0), &p.data.attendees, &grid, &HashSet::new(), &vec![(40, 0)], &blockage);
    assert_eq!(map.scores[40].0, 0);
    assert_eq!(map.scores[3].0, lowered);
    assert_eq!(map.best_score_pos_idx, 41);
}

#[test]
fn one_musician_goes_to_the_best_position() {
    let p = problem(40, 20, &[0], vec![attendee(20, -10, &[1000])], vec![]);
    let mut solver = Greedy::default();
    let solution = solver.solve(p.clone()).unwrap();
    assert_eq!(solution.data.placements, vec![Some(point(20, 10))]);
    assert_eq!(solution.data.volumes, None);
    assert_eq!(solution.score.0, 2_500_000);
    assert!(solver.remaining_musicians.is_empty());
    assert!(solver.done());
}

#[test]
fn solving_fails_when_the_positions_run_out() {
    // the first musician takes every position of a stage this small
    let p = problem(40, 20, &[0, 0], vec![attendee(20, -10, &[1000])], vec![]);
    let mut solver = Greedy::default();
    assert!(solver.solve(p).is_none());
    assert_eq!(solver.placements, vec![Some(point(20, 10)), None]);
    assert!(!solver.done());
    assert!(!solver.has_step());
    assert!(!solver.grid.any_free());
}

#[test]
fn steps_place_one_musician_each() {
    let p = problem(
        100,
        60,
        &[1, 0, 1],
        vec![attendee(50, -20, &[100, 900]), attendee(-30, 30, &[700, 50])],
        vec![],
    );
    let mut solver = started(&p);
    assert_eq!(solver.placements, vec![None, None, None]);
    assert_eq!(solver.impact_maps.len(), 2);
    assert!(solver.has_step());
    assert_maps_agree(&solver);
    // the second instrument promises most: right in front of the first attendee
    let (first, done) = solver.solve_step();
    assert!(!done);
    assert_eq!(first.placements, vec![Some(point(50, 10)), None, None]);
    assert_maps_agree(&solver);
    let (second, done) = solver.solve_step();
    assert!(!done);
    assert_eq!(second.placements.iter().flatten().count(), 2);
    assert_maps_agree(&solver);
    let (third, done) = solver.solve_step();
    assert!(done);
    assert!(third.placements.iter().all(|placement| placement.is_some()));
    assert_eq!(solver.placements, third.placements);
    assert!(solver.remaining_musicians.is_empty());
    assert!(!solver.has_step());
}

#[test]
fn solution_is_complete_valid_and_scored() {
    let attendees = vec![
        attendee(-20, 40, &[300, -200, 50]),
        attendee(60, -30, &[100, 800, -70]),
        attendee(150, 50, &[-40, 250, 600]),
        attendee(70, 130, &[500, 20, 90]),
        attendee(200, 200, &[10, 10, 10]),
    ];
    let pillars = vec![
        pillar(60, -10, 6),
        pillar(-5, 60, 3),
    ];
    let p = problem(120, 100, &[0, 1, 2, 1, 0, 2, 1], attendees, pillars);
    let mut solver = Greedy::default();
    let solution = solver.solve(p.clone()).unwrap();
    let placed: Vec<Point2D> = solution.data.placements.iter().map(|m| m.unwrap()).collect();
    assert_eq!(placed.len(), 7);
    for (i, a) in placed.iter().enumerate() {
        assert!(10 * U <= a.x && a.x <= 110 * U && 10 * U <= a.y && a.y <= 90 * U);
        for b in &placed[..i] {
            assert!((a.x - b.x) * (a.x - b.x) + (a.y - b.y) * (a.y - b.y) > 100 * U * U);
        }
    }
    assert!(solver.remaining_musicians.is_empty());
    assert_eq!(solution.score.0, score(&p.data, &solution.data.placements, None).0);
}

#[test]
fn impact_maps_agree_with_the_placement_after_every_step() {
    let attendees = vec![
        attendee(-20, 40, &[300, -200]),
        attendee(60, -30, &[100, 800]),
        attendee(150, 50, &[-40, 250]),
        attendee(70, 130, &[500, 20]),
    ];
    let pillars = vec![pillar(60, -10, 6)];
    let p = problem(110, 90, &[0, 1, 1, 0, 1, 0], attendees, pillars);
    let mut solver = started(&p);
    assert_maps_agree(&solver);
    while solver.has_step() {
        solver.solve_step();
        assert_maps_agree(&solver);
        for pos in &solver.grid.positions {
            let near = solver.placements.iter().flatten().any(|m| {
                (m.x - pos.p.x) * (m.x - pos.p.x) + (m.y - pos.p.y) * (m.y - pos.p.y)
                    <= 100 * U * U
            });
            assert_eq!(pos.taken, near);
        }
    }
    assert!(solver.done());
}

#[test]
fn ties_go_to_the_first_instrument_and_the_first_musician() {
    // both instruments are liked alike
    let p = problem(40, 20, &[1, 0, 0], vec![attendee(20, -10, &[1000, 1000])], vec![]);
    let mut solver = started(&p);
    let (first, _) = solver.solve_step();
    assert_eq!(first.placements, vec![None, Some(point(20, 10)), None]);
}

#[test]
fn musicians_may_stand_between_whole_units() {
    // the attendee stands nearest to the middle between two whole units
    let p = problem(41, 20, &[0], vec![Attendee { x: 20 * U + 256, y: -10 * U, tastes: vec![1_000_000] }], vec![]);
    let mut solver = Greedy::default();
    let solution = solver.solve(p).unwrap();
    assert_eq!(solution.data.placements, vec![Some(half(41, 20))]);
}

#[test]
fn getters() {
    let p = problem(40, 20, &[2], vec![attendee(20, -10, &[1, 2, 3])], vec![]);
    let solver = started(&p);
    assert_eq!(solver.name(), "greedy");
    assert_eq!(solver.get_grid().unwrap().positions.len(), 41);
    assert!(solver.get_impact_map(&Instrument(2)).is_some());
    assert!(solver.get_impact_map(&Instrument(3)).is_none());
    assert_eq!(Greedy::waiting_instruments(&p.data.musicians, &vec![None], 3), vec![false, false, true]);
    assert_eq!(
        Greedy::waiting_instruments(&p.data.musicians, &vec![Some(point(1, 1))], 3),
        vec![false, false, false]
    );
}
