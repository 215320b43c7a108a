use stage_placer::dto::{Attendee, Instrument, Point2D, ProblemDto, SolutionDto};
use stage_placer::scoring::scorer::score;
use stage_placer::solvers::mix::Mix;
use stage_placer::solvers::vol10::Vol10;
use stage_placer::solvers::Problem;

/// Steps in a unit of length.
const U: i64 = 512;

/// The point at a place given in units.
fn point(x: i64, y: i64) -> Point2D {
    Point2D { x: x * U, y: y * U }
}

/// An attendee at a place given in units, with tastes given in whole numbers.
fn attendee(x: i64, y: i64, tastes: &[i64]) -> Attendee {
    Attendee { x: x * U, y: y * U, tastes: tastes.iter().map(|t| t * 1000).collect() }
}

fn problem() -> Problem {
    Problem {
        id: "9".to_string(),
        data: ProblemDto {
            room_width: 1000 * U,
            room_height: 1000 * U,
            stage_width: 200 * U,
            stage_height: 100 * U,
            stage_bottom_left: point(0, 0),
            musicians: vec![Instrument(0), Instrument(1), Instrument(2)],
            attendees: vec![
                attendee(50, -40, &[100, -300, 10]),
                attendee(150, -40, &[40, -200, -10]),
            ],
            pillars: vec![],
        },
        ..Problem::default()
    }
}

fn placement() -> SolutionDto {
    SolutionDto {
        placements: vec![Some(point(50, 20)), Some(point(100, 20)), Some(point(150, 20))],
        volumes: None,
    }
}

#[test]
fn vol10_turns_everything_up() {
    let mut solver = Vol10::default();
    solver.initialize(problem(), placement());
    let (solution, done) = solver.solve_step();
    assert!(done);
    assert_eq!(solution.placements, placement().placements);
    assert_eq!(solution.volumes, Some(vec![10_000_000; 3]));
    assert_eq!(solver.name(), "vol10");
}

#[test]
fn mix_keeps_the_score_from_falling() {
    let p = problem();
    let mut solver = Mix::default();
    solver.initialize(p.clone(), placement());
    let (solution, done) = solver.solve_step();
    assert!(done);
    assert_eq!(solution.placements, placement().placements);
    // each in turn gets the loudest volume with which the score is not below what
    // it was at first
    let floor = score(&p.data, &solution.placements, None).0;
    let mut expected = vec![1_000_000; 3];
    for idx in 0..3 {
        let before = expected[idx];
        expected[idx] = (0..=20u32)
            .map(|k| k * 500_000)
            .filter(|v| {
                let mut tried = expected.clone();
                tried[idx] = *v;
                score(&p.data, &solution.placements, Some(&tried)).0 >= floor
            })
            .max()
            .unwrap_or(before);
    }
    assert_eq!(solution.volumes, Some(expected));
    // the first is liked by both and is turned up all the way, and what that gains
    // is spent on the second, whom nobody likes
    assert_eq!(solution.volumes, Some(vec![10_000_000, 4_000_000, 10_000_000]));
    assert!(score(&p.data, &solution.placements, solution.volumes.as_ref()).0 >= floor);
    assert_eq!(solver.name(), "mix");
}

#[test]
fn mix_turns_down_who_is_not_liked() {
    let mut p = problem();
    p.data.musicians = vec![Instrument(1)];
    let alone = SolutionDto { placements: vec![Some(point(100, 20))], volumes: None };
    let mut solver = Mix::default();
    solver.initialize(p, alone);
    let (solution, _) = solver.solve_step();
    assert_eq!(solution.volumes, Some(vec![1_000_000]));
}

#[test]
fn mix_takes_the_loudest_volume_that_does_not_lose() {
    // a musician whom nobody hears can be as loud as can be
    let mut p = problem();
    p.data.attendees = vec![attendee(50, -40, &[0, 0, 0])];
    let mut solver = Mix::default();
    solver.initialize(p, placement());
    let (solution, _) = solver.solve_step();
    assert_eq!(solution.volumes, Some(vec![10_000_000; 3]));
}
