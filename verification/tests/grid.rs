use stage_placer::common::{count_along, Grid, Position};
use stage_placer::dto::{Attendee, Instrument, Point2D, ProblemDto};
use stage_placer::scoring::Scorer;
use stage_placer::solvers::Problem;

/// Steps in a unit of length.
const U: i64 = 512;

/// The point at a place given in units.
fn point(x: i64, y: i64) -> Point2D {
    Point2D { x: x * U, y: y * U }
}

/// A stage with its corner and its sides given in units.
fn stage(left: i64, bottom: i64, width: i64, height: i64, musicians: usize) -> Problem {
    Problem {
        id: "stage".to_string(),
        data: ProblemDto {
            room_width: 10_000 * U,
            room_height: 10_000 * U,
            stage_width: width * U,
            stage_height: height * U,
            stage_bottom_left: point(left, bottom),
            musicians: vec![Instrument(0); musicians],
            attendees: vec![Attendee { x: -50 * U, y: -50 * U, tastes: vec![1000] }],
            pillars: vec![],
        },
        removed_attendees: vec![],
        removed_pillars: vec![],
        scorer: Scorer::default(),
    }
}

#[test]
fn grid_lines_are_counted() {
    assert_eq!(count_along(10, 30, 1), 21);
    assert_eq!(count_along(10, 30, 3), 7);
    assert_eq!(count_along(10, 30, 20), 2);
    assert_eq!(count_along(10, 30, 21), 1);
    assert_eq!(count_along(10, 10, 5), 1);
    assert_eq!(count_along(11, 10, 1), 0);
}

#[test]
fn smallest_stage_has_one_position() {
    let p = stage(5, 7, 20, 20, 1);
    assert_eq!(Grid::spacing(&p.data), 1);
    let grid = Grid::new(&p);
    assert_eq!(grid.positions, vec![Position { p: point(15, 17), taken: false }]);
}

#[test]
fn stage_below_the_margins_has_no_position() {
    let p = stage(0, 0, 19, 40, 1);
    let grid = Grid::new(&p);
    assert!(grid.positions.is_empty());
    assert!(!grid.any_free());
}

#[test]
fn positions_come_row_by_row_half_a_unit_apart() {
    let p = stage(0, 0, 40, 30, 1);
    assert_eq!(Grid::spacing(&p.data), U / 2);
    let grid = Grid::new(&p);
    assert_eq!(grid.positions.len(), 41 * 21);
    assert_eq!(grid.positions[0].p, point(10, 10));
    assert_eq!(grid.positions[1].p, Point2D { x: 10 * U + 256, y: 10 * U });
    assert_eq!(grid.positions[2].p, point(11, 10));
    assert_eq!(grid.positions[40].p, point(30, 10));
    assert_eq!(grid.positions[41].p, Point2D { x: 10 * U, y: 10 * U + 256 });
    assert_eq!(grid.positions[41 * 21 - 1].p, point(30, 20));
    assert!(grid.positions.iter().all(|pos| !pos.taken));
    assert!(grid.any_free());
}

#[test]
fn spacing_grows_until_the_grid_is_within_the_budget() {
    // the inner area is 1,024,000 steps wide and high: at a spacing of 1025 there
    // are 1000 x 1000 positions, a million, and at 1026 there are 999 x 999
    let p = stage(0, 0, 2020, 2020, 1);
    assert_eq!(Grid::spacing(&p.data), 1026);
    let grid = Grid::new(&p);
    assert_eq!(grid.positions.len(), 999 * 999);
    assert_eq!(grid.positions[1].p, Point2D { x: 10 * U + 1026, y: 10 * U });
    assert_eq!(grid.positions[999].p, Point2D { x: 10 * U, y: 10 * U + 1026 });
    let last = 10 * U + 998 * 1026;
    assert_eq!(grid.positions[999 * 999 - 1].p, Point2D { x: last, y: last });
}

#[test]
fn spacing_steps_back_where_the_grid_gets_too_small() {
    // with 1000 musicians no grid of a thousand positions is within the budget; the
    // inner area is 51,200 steps wide and high: at a spacing of 813 there are
    // 63 x 63 positions, fewer than four for each, and at 812 there are 64 x 64
    let p = stage(0, 0, 120, 120, 1000);
    assert_eq!(Grid::spacing(&p.data), 812);
    assert_eq!(Grid::new(&p).positions.len(), 64 * 64);
}

#[test]
fn spacing_gets_finer_until_every_musician_has_four_positions() {
    // the inner area is one unit wide and high: at half a unit there are 3 x 3
    // positions, at a quarter 5 x 5
    let two = stage(0, 0, 21, 21, 2);
    assert_eq!(Grid::spacing(&two.data), 256);
    assert_eq!(Grid::new(&two).positions.len(), 9);
    let five = stage(0, 0, 21, 21, 5);
    assert_eq!(Grid::spacing(&five.data), 128);
    let grid = Grid::new(&five);
    assert_eq!(grid.positions.len(), 25);
    assert_eq!(grid.positions[1].p, Point2D { x: 10 * U + 128, y: 10 * U });
    assert_eq!(grid.positions[24].p, point(11, 11));
    // six need 24 positions too, which 5 x 5 give
    assert_eq!(Grid::spacing(&stage(0, 0, 21, 21, 6).data), 128);
    // seven need 28: at a spacing of 102 steps there are 6 x 6
    assert_eq!(Grid::spacing(&stage(0, 0, 21, 21, 7).data), 102);
}

#[test]
fn every_musician_has_four_positions_on_every_stage_with_an_inner_area() {
    for (width, height, musicians) in
        [(21, 21, 1), (21, 21, 50), (21, 400, 3000), (22, 21, 65_536), (300, 21, 40_000)]
    {
        let p = stage(-7, 3, width, height, musicians);
        let grid = Grid::new(&p);
        assert!(grid.positions.len() >= 4 * musicians, "{width} {height} {musicians}");
        for (k, pos) in grid.positions.iter().enumerate() {
            assert!(!pos.taken);
            assert!(3 * U <= pos.p.x && pos.p.x <= (width - 17) * U);
            assert!(13 * U <= pos.p.y && pos.p.y <= (height - 7) * U);
            if k > 0 {
                let before = grid.positions[k - 1].p;
                assert!(before.y < pos.p.y || (before.y == pos.p.y && before.x < pos.p.x));
            }
        }
    }
}

#[test]
fn positions_are_a_step_apart_where_the_inner_area_is_tiny() {
    let mut p = stage(0, 0, 21, 21, 1);
    p.data.stage_width = 20 * U + 1;
    p.data.stage_height = 20 * U + 1;
    assert!(p.data.is_valid());
    let grid = Grid::new(&p);
    let points: Vec<(i64, i64)> = grid.positions.iter().map(|pos| (pos.p.x, pos.p.y)).collect();
    assert_eq!(
        points,
        vec![(10 * U, 10 * U), (10 * U + 1, 10 * U), (10 * U, 10 * U + 1), (10 * U + 1, 10 * U + 1)]
    );
    let mut p = stage(0, 0, 21, 21, 27);
    p.data.stage_width = 20 * U + 10;
    p.data.stage_height = 20 * U + 9;
    assert!(p.data.is_valid());
    assert_eq!(Grid::new(&p).positions.len(), 110);
}

#[test]
fn no_two_positions_are_the_same_point() {
    for (width, height, musicians) in [(21, 21, 50), (40, 33, 7), (20, 45, 2)] {
        let grid = Grid::new(&stage(2, -9, width, height, musicians));
        let mut points: Vec<(i64, i64)> =
            grid.positions.iter().map(|pos| (pos.p.x, pos.p.y)).collect();
        let count = points.len();
        points.sort();
        points.dedup();
        assert_eq!(points.len(), count);
    }
}

#[test]
fn a_stage_that_is_a_line_inside_the_margins_has_a_row_of_positions() {
    let p = stage(0, 0, 60, 20, 3);
    let grid = Grid::new(&p);
    assert_eq!(grid.positions.len(), 81);
    assert!(grid.positions.iter().all(|pos| pos.p.y == 10 * U));
    // no spacing gives twelve positions on a line of one step
    let short = Grid::new(&stage(0, 0, 20, 20, 3));
    assert_eq!(short.positions.len(), 1);
}

#[test]
fn taken_positions_are_those_near_a_musician() {
    let p = stage(0, 0, 60, 20, 1);
    let mut grid = Grid::new(&p);
    assert_eq!(grid.positions.len(), 81);
    grid.recalculate_taken(&vec![None, Some(point(10, 10)), Some(point(50, 16))]);
    for pos in &grid.positions {
        let near_first = pos.p.x <= 20 * U;
        let dx = pos.p.x - 50 * U;
        let near_second = dx * dx + 36 * U * U <= 100 * U * U;
        assert_eq!(pos.taken, near_first || near_second, "{:?}", pos);
    }
    // ten units from the first is near enough, half a unit more is not
    assert!(grid.positions[20].taken);
    assert!(!grid.positions[21].taken);
    // eight units along the row from the second, which stands six above it
    assert!(grid.positions[64].taken);
    assert!(!grid.positions[63].taken);
    grid.recalculate_taken(&vec![]);
    assert!(grid.positions.iter().all(|pos| !pos.taken));
}

#[test]
fn taking_keeps_what_was_taken() {
    let p = stage(0, 0, 60, 20, 1);
    let mut grid = Grid::new(&p);
    let first = grid.take_near(&point(10, 10));
    assert_eq!(first.len(), 21);
    assert!(first.contains(&0) && first.contains(&20) && !first.contains(&21));
    let second = grid.take_near(&point(25, 10));
    // positions 10 to 50 are within ten units of the second centre
    assert_eq!(second.len(), 41);
    assert!(second.contains(&10) && second.contains(&50) && !second.contains(&51));
    for (k, pos) in grid.positions.iter().enumerate() {
        assert_eq!(pos.taken, k <= 50);
    }
    assert!(grid.any_free());
}
