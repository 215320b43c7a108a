use stage_placer::common::calculate_invalid_positions;
use stage_placer::dto::{Attendee, Instrument, PillarDto, Point2D, ProblemDto, SolutionMetaDto};

/// Steps in a unit of length.
const U: i64 = 512;

fn point(x: i64, y: i64) -> Point2D {
    Point2D { x, y }
}

/// The point at a place given in units.
fn at(x: i64, y: i64) -> Point2D {
    Point2D { x: x * U, y: y * U }
}

fn problem() -> ProblemDto {
    ProblemDto {
        room_width: 1000,
        room_height: 1000,
        stage_width: 100 * U,
        stage_height: 50 * U,
        stage_bottom_left: at(200, 300),
        musicians: vec![Instrument(0), Instrument(2)],
        attendees: vec![Attendee { x: 0, y: 0, tastes: vec![1, -1, 5] }],
        pillars: vec![PillarDto { center: point(5, 5), radius: 3 }],
    }
}

#[test]
fn problem_within_the_ranges_is_valid() {
    assert!(problem().is_valid());
    assert!(ProblemDto::default().is_valid());
}

#[test]
fn attendee_without_a_taste_for_an_instrument_in_use_is_refused() {
    let mut p = problem();
    p.attendees.push(Attendee { x: 9, y: 9, tastes: vec![1, 2] });
    assert!(!p.is_valid());
    p.musicians.pop();
    assert!(p.is_valid());
}

#[test]
fn values_out_of_range_are_refused() {
    let mut p = problem();
    p.attendees[0].tastes[1] = 1_000_000_001;
    assert!(!p.is_valid());
    p.attendees[0].tastes[1] = -1_000_000_000;
    assert!(p.is_valid());
    p.attendees[0].x = 1_073_741_825;
    assert!(!p.is_valid());
    let mut p = problem();
    p.pillars[0].radius = -1;
    assert!(!p.is_valid());
    let mut p = problem();
    p.stage_width = -1;
    assert!(!p.is_valid());
    let mut p = problem();
    p.stage_bottom_left = point(1_073_741_824, 0);
    assert!(!p.is_valid());
    p.stage_width = 0;
    assert!(p.is_valid());
    p.stage_height = i64::MAX;
    assert!(!p.is_valid());
}

#[test]
fn stage_without_room_for_its_musicians_is_refused() {
    // four points a step apart for every musician, where the inner area is not empty
    let mut p = problem();
    for (width, height, musicians, valid) in [
        (20 * U + 1, 20 * U + 1, 1, true),
        (20 * U + 1, 20 * U + 1, 2, false),
        (20 * U + 10, 20 * U + 9, 27, true),
        (20 * U + 10, 20 * U + 9, 28, false),
        (21 * U, 21 * U, 65_536, true),
        (20 * U + 255, 20 * U + 255, 16_384, true),
        (20 * U + 255, 20 * U + 255, 16_385, false),
        // nothing is asked of a stage that is a line or less inside the margins
        (20 * U, 20 * U + 1, 500, true),
        (20 * U + 1, 19 * U, 500, true),
        (0, 0, 500, true),
    ] {
        p.stage_width = width;
        p.stage_height = height;
        p.musicians = vec![Instrument(0); musicians];
        assert_eq!(p.is_valid(), valid, "{width} {height} {musicians}");
    }
}

#[test]
fn points_in_range() {
    assert!(point(1_073_741_824, -1_073_741_824).is_valid());
    assert!(!point(0, 1_073_741_825).is_valid());
    assert!(PillarDto { center: point(0, 0), radius: 0 }.is_valid());
    assert_eq!(PillarDto { center: point(7, 8), radius: 2 }.as_vec(), point(7, 8));
    let a = Attendee { x: 4, y: -4, tastes: vec![] };
    assert!(a.is_valid());
    assert_eq!(a.as_vec(), point(4, -4));
}

#[test]
fn nobody_has_solved_yet() {
    let meta = SolutionMetaDto::not_solved();
    assert_eq!(meta.solver_name, "err_not_solved");
    assert_eq!(meta.score, 0);
}

#[test]
fn invalid_positions_are_outside_or_too_close() {
    let p = problem();
    // the inner area of the stage is 210..=290 by 310..=340
    let positions = vec![
        Some(at(210, 310)),
        Some(at(209, 320)),
        None,
        Some(at(250, 330)),
        Some(at(256, 338)),
        Some(at(290, 341)),
        Some(at(270, 310)),
        Some(at(280, 310)),
        Some(at(216, 318)),
    ];
    let invalid = calculate_invalid_positions(&positions, &p);
    let mut listed: Vec<usize> = invalid.into_iter().collect();
    listed.sort();
    // 3 and 4 are exactly ten apart, which is far enough; so are 6 and 7, 0 and 8;
    // but 8 is too close to 1
    assert_eq!(listed, vec![1, 5, 8]);
    let positions = vec![Some(at(250, 330)), Some(at(255, 338)), Some(at(262, 330)), None];
    let mut listed: Vec<usize> = calculate_invalid_positions(&positions, &p).into_iter().collect();
    listed.sort();
    assert_eq!(listed, vec![0, 1]);
    assert!(calculate_invalid_positions(&vec![], &p).is_empty());
}
