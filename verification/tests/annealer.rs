use stage_placer::diamond_grid::{DiamondGrid, GridCoord, GridSize};
use stage_placer::dto::{Attendee, Instrument, Point2D, ProblemDto, SolutionDto};
use stage_placer::scoring::scorer::score;
use stage_placer::solvers::annealer::{neighbor, neighbor_at, reach, Annealer, MusicianChange};
use stage_placer::scoring::Scorer;
use stage_placer::solvers::Problem;

fn coord(x: isize, y: isize) -> GridCoord {
    GridCoord { x, y }
}

/// Steps in a unit of length.
const U: i64 = 512;

/// The point at a place given in units.
fn at(x: i64, y: i64) -> Point2D {
    Point2D { x: x * U, y: y * U }
}

/// An attendee at a place given in units, with tastes given in whole numbers.
fn attendee(x: i64, y: i64, tastes: &[i64]) -> Attendee {
    Attendee { x: x * U, y: y * U, tastes: tastes.iter().map(|t| t * 1000).collect() }
}

/// A stage of the given width and height in units, with its corner at (100, 50).
fn problem(width: i64, height: i64, musicians: &[u32]) -> Problem {
    Problem {
        id: "3".to_string(),
        data: ProblemDto {
            room_width: 1000 * U,
            room_height: 1000 * U,
            stage_width: width * U,
            stage_height: height * U,
            stage_bottom_left: at(100, 50),
            musicians: musicians.iter().map(|i| Instrument(*i)).collect(),
            attendees: vec![
                attendee(0, 0, &[100, -30]),
                attendee(400, 90, &[-20, 500]),
                attendee(150, 300, &[70, 70]),
            ],
            pillars: vec![],
        },
        removed_attendees: vec![],
        removed_pillars: vec![],
        scorer: Scorer::default(),
    }
}

/// One musician for each occupied coordinate, and each on the coordinate that
/// names them.
fn assert_consistent(placements: &[GridCoord], grid: &DiamondGrid<Option<usize>>) {
    for (i, c) in placements.iter().enumerate() {
        assert!(grid.size.check(c));
        assert_eq!(grid.get(c), Some(i));
    }
    let occupied =
        grid.size.all_grid_coordinates().iter().filter(|c| grid.get(c).is_some()).count();
    assert_eq!(occupied, placements.len());
}

fn lattice(size: GridSize, placements: &[GridCoord]) -> DiamondGrid<Option<usize>> {
    let mut grid = DiamondGrid::new(size, |_: &GridCoord| None);
    for (i, c) in placements.iter().enumerate() {
        grid.set(c, Some(i));
    }
    grid
}

#[test]
fn swap_and_its_reverse() {
    let size = GridSize { cells_x: 2, cellx_y: 2 };
    let mut placements = vec![coord(0, 0), coord(1, 1), coord(4, 2)];
    let mut grid = lattice(size, &placements);
    let change = MusicianChange::Swap { musician_a: 0, musician_b: 2 };
    let undo = change.apply(&mut placements, &mut grid);
    assert_eq!(placements, vec![coord(4, 2), coord(1, 1), coord(0, 0)]);
    assert_eq!(grid.get(&coord(0, 0)), Some(2));
    assert_eq!(grid.get(&coord(4, 2)), Some(0));
    assert_consistent(&placements, &grid);
    assert_eq!(undo, change);
    undo.apply(&mut placements, &mut grid);
    assert_eq!(placements, vec![coord(0, 0), coord(1, 1), coord(4, 2)]);
    assert_consistent(&placements, &grid);
}

#[test]
fn swap_with_oneself_changes_nothing() {
    let size = GridSize { cells_x: 1, cellx_y: 1 };
    let mut placements = vec![coord(1, 1), coord(2, 0)];
    let mut grid = lattice(size, &placements);
    MusicianChange::Swap { musician_a: 1, musician_b: 1 }.apply(&mut placements, &mut grid);
    assert_eq!(placements, vec![coord(1, 1), coord(2, 0)]);
    assert_consistent(&placements, &grid);
}

#[test]
fn move_and_its_reverse() {
    let size = GridSize { cells_x: 2, cellx_y: 2 };
    let mut placements = vec![coord(0, 0), coord(1, 1)];
    let mut grid = lattice(size, &placements);
    let change = MusicianChange::Move { musician: 1, location: coord(3, 3) };
    let undo = change.apply(&mut placements, &mut grid);
    assert_eq!(placements, vec![coord(0, 0), coord(3, 3)]);
    assert_eq!(grid.get(&coord(1, 1)), None);
    assert_eq!(grid.get(&coord(3, 3)), Some(1));
    assert_consistent(&placements, &grid);
    assert_eq!(undo, MusicianChange::Move { musician: 1, location: coord(1, 1) });
    undo.apply(&mut placements, &mut grid);
    assert_eq!(placements, vec![coord(0, 0), coord(1, 1)]);
    assert_eq!(grid.get(&coord(3, 3)), None);
    assert_consistent(&placements, &grid);
}

#[test]
fn neighbor_moves_to_a_free_coordinate_and_swaps_on_a_taken_one() {
    let size = GridSize { cells_x: 2, cellx_y: 2 };
    let placements = vec![coord(0, 0), coord(1, 1), coord(4, 2)];
    let grid = lattice(size, &placements);
    assert_eq!(
        neighbor_at(&grid, &placements, 0, (2, 2)),
        MusicianChange::Move { musician: 0, location: coord(2, 2) }
    );
    assert_eq!(
        neighbor_at(&grid, &placements, 0, (1, 1)),
        MusicianChange::Swap { musician_a: 0, musician_b: 1 }
    );
    // reflected at the edge onto the coordinate of the third
    assert_eq!(
        neighbor_at(&grid, &placements, 1, (3, -3)),
        MusicianChange::Swap { musician_a: 1, musician_b: 2 }
    );
    // back onto the same coordinate
    assert_eq!(
        neighbor_at(&grid, &placements, 0, (8, 8)),
        MusicianChange::Swap { musician_a: 0, musician_b: 0 }
    );
}

#[test]
fn random_neighbor_can_be_applied() {
    let size = GridSize { cells_x: 3, cellx_y: 2 };
    let mut placements = vec![coord(0, 0), coord(1, 1), coord(4, 2), coord(5, 3)];
    let mut grid = lattice(size, &placements);
    for step in 0..500 {
        let musician = step % 4;
        let change = neighbor(&grid, &placements, musician, 1 + step % 7);
        match change {
            MusicianChange::Swap { musician_a, musician_b } => {
                assert_eq!(musician_a, musician);
                assert!(musician_b < 4);
            }
            MusicianChange::Move { musician: moved, location } => {
                assert_eq!(moved, musician);
                assert_eq!(grid.get(&location), None);
            }
        }
        change.apply(&mut placements, &mut grid);
        assert_consistent(&placements, &grid);
    }
}

#[test]
fn initialize_places_every_musician_on_the_lattice() {
    let p = problem(120, 80, &[0, 1, 1, 0]);
    let mut solver = Annealer::default();
    assert!(solver.initialize(p.clone(), SolutionDto::default()));
    // 51200 by 30720 steps are left for the centres; a cell takes 7242 at least
    assert_eq!(solver.grid_size, GridSize { cells_x: 7, cellx_y: 4 });
    assert_eq!((solver.grid_transform.cell_width, solver.grid_transform.cell_height), (3657, 3840));
    assert_eq!(solver.grid_transform.x_min, 110 * U);
    assert_eq!(solver.grid_transform.y_min, 60 * U);
    assert_eq!(solver.grid_transform.x_max, 210 * U);
    assert_eq!(solver.grid_transform.y_max, 120 * U);
    assert_eq!(solver.placements.len(), 4);
    assert_eq!(solver.max_steps, 2000);
    assert_eq!(solver.step_i, 0);
    assert_eq!(solver.pending, None);
    assert_consistent(&solver.placements, &solver.grid);
    let solution = solver.serialize();
    assert_eq!(solution.volumes, Some(vec![10_000_000; 4]));
    assert_eq!(solver.score.0, score(&p.data, &solution.placements, solution.volumes.as_ref()).0);
    assert_eq!(solver.compute_score(&solution).0, solver.score.0);
    let placed: Vec<Point2D> = solution.placements.iter().map(|m| m.unwrap()).collect();
    for (i, a) in placed.iter().enumerate() {
        assert!(110 * U <= a.x && a.x <= 210 * U && 60 * U <= a.y && a.y <= 120 * U);
        for b in &placed[..i] {
            assert!((a.x - b.x) * (a.x - b.x) + (a.y - b.y) * (a.y - b.y) >= 100 * U * U);
        }
    }
    assert_eq!(solver.name(), "annealer");
}

#[test]
fn initialize_fails_on_a_lattice_that_is_too_small() {
    // a stage of 20 by 20 leaves one coordinate
    let mut solver = Annealer::default();
    assert!(!solver.initialize(problem(20, 20, &[0, 0]), SolutionDto::default()));
    assert!(solver.placements.is_empty());
    assert!(solver.initialize(problem(20, 20, &[0]), SolutionDto::default()));
    assert_eq!(solver.placements, vec![coord(0, 0)]);
    assert_eq!(solver.serialize().placements, vec![Some(at(110, 60))]);
    // 5 coordinates in a lattice of one cell
    assert!(solver.initialize(problem(36, 36, &[0; 5]), SolutionDto::default()));
    assert!(!solver.initialize(problem(36, 36, &[0; 6]), SolutionDto::default()));
}

#[test]
fn initialize_from_a_placement_takes_the_nearest_coordinates() {
    let p = problem(120, 80, &[0, 1, 1, 0]);
    // the lattice lines are 3657 steps apart along x and 3840 along y, from
    // (56320, 30720) on
    let seed = SolutionDto {
        placements: vec![
            Some(Point2D { x: 56320, y: 30720 }),
            Some(Point2D { x: 57820, y: 32220 }),
            Some(at(500, 500)),
            Some(Point2D { x: 63734, y: 38200 }),
        ],
        volumes: None,
    };
    let mut solver = Annealer::default();
    assert!(solver.initialize(p.clone(), seed.clone()));
    // the second is nearest to the first lattice point too, which is taken, and
    // then to the one in the middle of the first cell; the third is far out beyond
    // the upper right corner
    assert_eq!(solver.placements, vec![coord(0, 0), coord(1, 1), coord(14, 8), coord(2, 2)]);
    assert_consistent(&solver.placements, &solver.grid);
    let solution = solver.serialize();
    assert_eq!(
        solution.placements,
        vec![
            Some(Point2D { x: 56320, y: 30720 }),
            Some(Point2D { x: 59977, y: 34560 }),
            Some(Point2D { x: 107518, y: 61440 }),
            Some(Point2D { x: 63634, y: 38400 }),
        ]
    );
    assert_eq!(solver.score.0, score(&p.data, &solution.placements, solution.volumes.as_ref()).0);
    // the same placement gives the same coordinates
    let mut again = Annealer::default();
    assert!(again.initialize(p, seed));
    assert_eq!(again.placements, solver.placements);
}

#[test]
fn initialize_from_a_placement_breaks_ties_by_the_order_of_the_lattice() {
    let p = problem(120, 80, &[0, 0, 0]);
    // midway between the first two lattice points of the lowest row, and a little
    // farther from the one above the middle
    let seed =
        SolutionDto { placements: vec![Some(Point2D { x: 59977, y: 30720 }); 3], volumes: None };
    let mut solver = Annealer::default();
    assert!(solver.initialize(p, seed));
    assert_eq!(solver.placements, vec![coord(0, 0), coord(2, 0), coord(1, 1)]);
}

#[test]
fn initialize_from_a_placement_fails_on_a_lattice_that_is_too_small() {
    let seed = SolutionDto { placements: vec![Some(Point2D { x: 0, y: 0 }); 2], volumes: None };
    let mut solver = Annealer::default();
    assert!(!solver.initialize(problem(20, 20, &[0, 0]), seed));
    assert!(solver.placements.is_empty());
}

#[test]
fn initial_placements_vary() {
    let p = problem(200, 200, &[0, 1, 0, 1, 0, 1]);
    let mut first = Annealer::default();
    assert!(first.initialize(p.clone(), SolutionDto::default()));
    let varies = (0..50).any(|_| {
        let mut other = Annealer::default();
        other.initialize(p.clone(), SolutionDto::default()) && other.placements != first.placements
    });
    assert!(varies);
}

#[test]
fn rejected_change_is_undone() {
    let p = problem(200, 150, &[0, 1, 1]);
    let mut solver = Annealer::default();
    assert!(solver.initialize(p.clone(), SolutionDto::default()));
    for step in 0..300 {
        let before = solver.placements.clone();
        let score_before = solver.score;
        let delta = solver.begin_step(1 + step % 9);
        assert_consistent(&solver.placements, &solver.grid);
        let pending = solver.pending.unwrap();
        assert_eq!(delta, pending.score.0 - score_before.0);
        let changed = solver.serialize();
        assert_eq!(
            pending.score.0,
            score(&p.data, &changed.placements, changed.volumes.as_ref()).0
        );
        let (solution, done) = solver.finish_step(false, 0);
        assert_consistent(&solver.placements, &solver.grid);
        assert_eq!(solver.pending, None);
        assert_eq!(solver.step_i, step + 1);
        assert!(!done);
        if delta > 0 {
            assert_eq!(solver.score, pending.score);
            assert!(solver.score.0 > score_before.0);
        } else {
            assert_eq!(solver.placements, before);
            assert_eq!(solver.score, score_before);
        }
        assert_eq!(solution.placements, solver.serialize().placements);
        assert_eq!(
            solver.score.0,
            score(&p.data, &solution.placements, solution.volumes.as_ref()).0
        );
    }
}

#[test]
fn chosen_change_is_tried_and_decided() {
    let p = problem(120, 80, &[0, 1]);
    let seed = SolutionDto {
        placements: vec![Some(at(110, 60)), Some(at(210, 120))],
        volumes: None,
    };
    let mut solver = Annealer::default();
    assert!(solver.initialize(p.clone(), seed));
    assert_eq!(solver.placements, vec![coord(0, 0), coord(14, 8)]);
    let before = solver.score;
    // the first attendee likes the first instrument and stands at the lower left:
    // to move the first musician away is a loss
    let away = neighbor_at(&solver.grid, &solver.placements, 0, (4, 2));
    assert_eq!(away, MusicianChange::Move { musician: 0, location: coord(4, 2) });
    let delta = solver.try_change(away);
    assert!(delta < 0);
    assert_eq!(solver.placements, vec![coord(4, 2), coord(14, 8)]);
    let pending = solver.pending.unwrap();
    assert_eq!(pending.undo, MusicianChange::Move { musician: 0, location: coord(0, 0) });
    assert_eq!(pending.score.0, before.0 + delta);
    solver.finish_step(false, 0);
    assert_eq!(solver.placements, vec![coord(0, 0), coord(14, 8)]);
    assert_eq!(solver.score, before);
    // to swap the two is a change like any other
    let swap = neighbor_at(&solver.grid, &solver.placements, 1, (-14, -8));
    assert_eq!(swap, MusicianChange::Swap { musician_a: 1, musician_b: 0 });
    let delta = solver.try_change(swap);
    let (solution, _) = solver.finish_step(true, 0);
    assert_eq!(solver.placements, vec![coord(14, 8), coord(0, 0)]);
    assert_eq!(solver.score.0, before.0 + delta);
    assert_eq!(
        solver.score.0,
        score(&p.data, &solution.placements, solution.volumes.as_ref()).0
    );
    assert_eq!(solver.step_i, 2);
}

#[test]
fn accepted_loss_is_kept() {
    let p = problem(200, 150, &[0, 1, 1]);
    let mut solver = Annealer::default();
    assert!(solver.initialize(p.clone(), SolutionDto::default()));
    for _ in 0..200 {
        solver.begin_step(4);
        let changed = solver.placements.clone();
        let pending = solver.pending.unwrap();
        solver.finish_step(true, 0);
        assert_eq!(solver.placements, changed);
        assert_eq!(solver.score, pending.score);
        assert_consistent(&solver.placements, &solver.grid);
    }
}

#[test]
fn search_ends_with_the_step_budget() {
    let p = problem(60, 60, &[1]);
    let mut solver = Annealer::default();
    assert!(solver.initialize(p, SolutionDto::default()));
    assert_eq!(solver.max_steps, 500);
    let mut worst = solver.score.0;
    let mut steps = 0;
    loop {
        let delta = solver.begin_step(usize::MAX);
        let (_, done) = solver.finish_step(false, 0);
        steps += 1;
        assert!(solver.score.0 >= worst);
        if delta > 0 {
            worst = solver.score.0;
        }
        if done {
            break;
        }
    }
    assert_eq!(steps, 500);
    assert_eq!(solver.step_i, 500);
}

#[test]
fn step_keeps_no_loss_when_none_is_tolerated() {
    let p = problem(200, 150, &[0, 1, 1]);
    let mut solver = Annealer::default();
    assert!(solver.initialize(p.clone(), SolutionDto::default()));
    for step in 0..300 {
        let before = solver.placements.clone();
        let score_before = solver.score;
        let (solution, done) = solver.solve_step(1 + step % 9, 0, 0);
        assert!(!done);
        assert_eq!(solver.step_i, step + 1);
        assert_eq!(solver.pending, None);
        assert_consistent(&solver.placements, &solver.grid);
        assert_eq!(solution.placements, solver.serialize().placements);
        assert_eq!(solution.placements.len(), 3);
        assert_eq!(solution.volumes, Some(vec![10_000_000; 3]));
        assert_eq!(
            solver.score.0,
            score(&p.data, &solution.placements, solution.volumes.as_ref()).0
        );
        if solver.placements != before {
            assert!(solver.score.0 > score_before.0);
        } else {
            assert_eq!(solver.score, score_before);
        }
    }
}

#[test]
fn step_keeps_a_loss_below_what_is_tolerated() {
    let p = problem(200, 150, &[0, 1, 1]);
    let mut solver = Annealer::default();
    assert!(solver.initialize(p.clone(), SolutionDto::default()));
    for step in 0..300 {
        let before = solver.placements.clone();
        let score_before = solver.score;
        let (solution, _) = solver.solve_step(1 + step % 9, 1_000, 0);
        assert_consistent(&solver.placements, &solver.grid);
        assert_eq!(
            solver.score.0,
            score(&p.data, &solution.placements, solution.volumes.as_ref()).0
        );
        if solver.placements == before {
            assert_eq!(solver.score, score_before);
        } else {
            assert!(solver.score.0 > score_before.0 - 1_000);
        }
    }
    // every loss is kept when any loss is tolerated
    let (mut kept, mut tried) = (0, 0);
    for _ in 0..300 {
        let score_before = solver.score;
        solver.solve_step(4, i128::MAX, 0);
        tried += 1;
        if solver.score.0 < score_before.0 {
            kept += 1;
        }
    }
    assert_eq!(tried, 300);
    assert!(kept > 0);
}

#[test]
fn search_ends_after_twenty_minutes() {
    let p = problem(60, 60, &[1]);
    let mut solver = Annealer::default();
    assert!(solver.initialize(p, SolutionDto::default()));
    assert_eq!(solver.max_steps, 500);
    let (_, done) = solver.solve_step(3, 0, 1_199);
    assert!(!done);
    let (_, done) = solver.solve_step(3, 0, 1_200);
    assert!(!done);
    let (solution, done) = solver.solve_step(3, 0, 1_201);
    assert!(done);
    assert_eq!(solver.step_i, 3);
    assert_eq!(solution.placements, solver.serialize().placements);
    solver.begin_step(2);
    let (_, done) = solver.finish_step(false, 1_200);
    assert!(!done);
    solver.begin_step(2);
    let (_, done) = solver.finish_step(true, u64::MAX);
    assert!(done);
}

#[test]
fn search_ends_with_the_steps_whatever_the_time() {
    let p = problem(60, 60, &[1]);
    let mut solver = Annealer::default();
    assert!(solver.initialize(p, SolutionDto::default()));
    for step in 1..=500 {
        let (_, done) = solver.solve_step(5, 17, 0);
        assert_eq!(done, step == 500);
    }
}

#[test]
fn a_step_reaches_one_step_at_least() {
    assert_eq!(reach(0), 1);
    assert_eq!(reach(1), 1);
    assert_eq!(reach(77), 77);
    assert_eq!(reach(usize::MAX), isize::MAX as usize - 1);
    assert_eq!(reach(isize::MAX as usize - 1), isize::MAX as usize - 1);
}
