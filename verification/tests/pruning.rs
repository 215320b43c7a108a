use stage_placer::common::{
    count_edge_points, edge_point_at, is_obscuring_vision, is_stage_visible,
    prune_attendees_and_pillars,
};
use stage_placer::dto::{Attendee, Instrument, PillarDto, Point2D, ProblemDto};

/// Steps in a unit of length.
const U: i64 = 512;

/// The point at a place given in units.
fn point(x: i64, y: i64) -> Point2D {
    Point2D { x: x * U, y: y * U }
}

fn problem(attendees: &[(i64, i64)], pillars: &[(i64, i64, i64)]) -> ProblemDto {
    ProblemDto {
        room_width: 1000 * U,
        room_height: 1000 * U,
        stage_width: 40 * U,
        stage_height: 30 * U,
        stage_bottom_left: point(0, 0),
        musicians: vec![Instrument(0)],
        attendees: attendees
            .iter()
            .map(|a| Attendee { x: a.0 * U, y: a.1 * U, tastes: vec![1000] })
            .collect(),
        pillars: pillars
            .iter()
            .map(|p| PillarDto { center: point(p.0, p.1), radius: p.2 * U })
            .collect(),
    }
}

#[test]
fn border_points_go_round_the_inner_area() {
    let p = problem(&[], &[]);
    // the inner area is 10..=30 by 10..=20 units, with a point at every step
    let across = 2 * (20 * U as u64 + 1);
    let along = 2 * (10 * U as u64 + 1);
    assert_eq!(count_edge_points(&p), across + along);
    assert_eq!(edge_point_at(&p, 0), point(10, 10));
    assert_eq!(edge_point_at(&p, 1), point(10, 20));
    assert_eq!(edge_point_at(&p, 2), Point2D { x: 10 * U + 1, y: 10 * U });
    assert_eq!(edge_point_at(&p, across - 1), point(30, 20));
    assert_eq!(edge_point_at(&p, across), point(10, 10));
    assert_eq!(edge_point_at(&p, across + 1), point(30, 10));
    assert_eq!(edge_point_at(&p, across + 3), Point2D { x: 30 * U, y: 10 * U + 1 });
    assert_eq!(edge_point_at(&p, across + along - 1), point(30, 20));
    let narrow = ProblemDto { stage_width: 19 * U, ..p };
    assert_eq!(count_edge_points(&narrow), 0);
}

#[test]
fn stage_is_seen_past_a_small_pillar_and_not_past_a_large_one() {
    let p = problem(&[], &[(20, -95, 4)]);
    // from right behind the pillar the whole stage is hidden
    assert!(!is_stage_visible(&p, &point(20, -100)));
    // from the side it is not
    assert!(is_stage_visible(&p, &point(200, -100)));
    assert!(is_stage_visible(&problem(&[], &[]), &point(20, -100)));
    // a pillar that leaves the corners in sight
    let slim = problem(&[], &[(20, -20, 3)]);
    assert!(is_stage_visible(&slim, &point(20, -100)));
    assert!(is_obscuring_vision(&slim, &slim.pillars[0], &point(20, -100)));
    assert!(!is_obscuring_vision(&slim, &slim.pillars[0], &point(200, 15)));
    // without an inner area nothing is seen
    let narrow = ProblemDto { stage_width: 19 * U, ..problem(&[], &[]) };
    assert!(!is_stage_visible(&narrow, &point(20, -100)));
}

#[test]
fn pruning_keeps_who_sees_the_stage_and_what_hides_it() {
    let p = problem(
        &[(20, -100), (200, -100), (-300, 15), (21, -101)],
        &[(20, -95, 4), (500, 500, 30), (-100, 15, 2), (-800, -800, 1)],
    );
    let (attendees, pillars) = prune_attendees_and_pillars(&p);
    // the first and the last attendee stand right behind the first pillar
    assert_eq!(attendees, vec![1, 2]);
    // the first pillar hides the stage from those only who do not count any more,
    // the third stands before the third attendee; the others are in nobody's way
    assert_eq!(pillars, vec![2]);
}

#[test]
fn pruning_without_pillars_keeps_every_attendee() {
    let p = problem(&[(20, -100), (200, -100)], &[]);
    assert_eq!(prune_attendees_and_pillars(&p), (vec![0, 1], vec![]));
    let empty = problem(&[], &[(1, 1, 1)]);
    assert_eq!(prune_attendees_and_pillars(&empty), (vec![], vec![]));
}
