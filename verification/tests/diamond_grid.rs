use stage_placer::diamond_grid::{
    classify, fit_circles_grid, fold_into, fit_grid, is_odd, lattice_step, nudge_from,
    CoordSpace, DiamondGrid, GridCoord, GridSize,
};

fn coord(x: isize, y: isize) -> GridCoord {
    GridCoord { x, y }
}

#[test]
fn test_fit_grid() {
    // lengths in tenths: a rectangle of 3.5 by 3.5 at (5, 10) with cells of at least 1
    let (size, transform) = fit_grid(50, 100, 35, 35, 10);
    assert_eq!(size, GridSize { cells_x: 3, cellx_y: 3 });
    assert_eq!(transform.size, size);
    assert_eq!(transform.cell_width, 5);
    assert_eq!(transform.cell_height, 5);
    assert_eq!((transform.x_min, transform.y_min), (50, 100));
    assert_eq!((transform.x_max, transform.y_max), (85, 135));
}

#[test]
fn fit_grid_without_room_for_a_cell() {
    let (size, transform) = fit_grid(0, 0, 9, 25, 10);
    assert_eq!(size, GridSize { cells_x: 0, cellx_y: 2 });
    assert_eq!(transform.cell_width, 0);
    assert_eq!(transform.cell_height, 6);
    assert_eq!(transform.apply(&coord(0, 4)), (0, 24));
}

#[test]
fn odd_numbers() {
    assert!(is_odd(1) && is_odd(-1) && is_odd(7) && is_odd(-7) && is_odd(isize::MAX));
    assert!(!is_odd(0) && !is_odd(2) && !is_odd(-2) && !is_odd(isize::MIN));
}

#[test]
fn coordinates_are_even_or_odd_in_both_numbers() {
    assert_eq!(classify(&coord(0, 0)), Some(CoordSpace::Even));
    assert_eq!(classify(&coord(4, 2)), Some(CoordSpace::Even));
    assert_eq!(classify(&coord(3, 1)), Some(CoordSpace::Odd));
    assert_eq!(classify(&coord(-3, 5)), Some(CoordSpace::Odd));
    assert_eq!(classify(&coord(-2, -4)), Some(CoordSpace::Even));
    assert_eq!(classify(&coord(1, 2)), None);
    assert_eq!(classify(&coord(2, -1)), None);
}

#[test]
fn width_and_height_count_the_steps() {
    let size = GridSize { cells_x: 2, cellx_y: 1 };
    assert_eq!(size.width(), 5);
    assert_eq!(size.height(), 3);
    let point = GridSize { cells_x: 0, cellx_y: 0 };
    assert_eq!((point.width(), point.height()), (1, 1));
}

#[test]
fn check_tells_the_coordinates_of_the_lattice() {
    let size = GridSize { cells_x: 2, cellx_y: 1 };
    assert!(size.check(&coord(0, 0)));
    assert!(size.check(&coord(4, 2)));
    assert!(size.check(&coord(3, 1)));
    assert!(!size.check(&coord(3, 2)));
    assert!(!size.check(&coord(5, 1)));
    assert!(!size.check(&coord(6, 2)));
    assert!(!size.check(&coord(1, 3)));
    assert!(!size.check(&coord(-1, 1)));
    assert!(!size.check(&coord(-2, 0)));
}

#[test]
fn all_coordinates_in_order() {
    let size = GridSize { cells_x: 2, cellx_y: 1 };
    let all = size.all_grid_coordinates();
    assert_eq!(
        all,
        vec![
            coord(0, 0),
            coord(0, 2),
            coord(1, 1),
            coord(2, 0),
            coord(2, 2),
            coord(3, 1),
            coord(4, 0),
            coord(4, 2),
        ]
    );
    assert!(all.iter().all(|c| size.check(c)));
    let point = GridSize { cells_x: 0, cellx_y: 0 };
    assert_eq!(point.all_grid_coordinates(), vec![coord(0, 0)]);
    let row = GridSize { cells_x: 3, cellx_y: 0 };
    assert_eq!(row.all_grid_coordinates().len(), 4);
}

#[test]
fn displacement_within_the_lattice() {
    let size = GridSize { cells_x: 4, cellx_y: 4 };
    assert_eq!(size.displace(&coord(2, 2), (1, 1)), coord(3, 3));
    assert_eq!(size.displace(&coord(2, 2), (-2, 4)), coord(0, 6));
    assert_eq!(size.displace(&coord(3, 5), (0, 0)), coord(3, 5));
}

#[test]
fn displacement_is_reflected_at_the_edges() {
    let size = GridSize { cells_x: 4, cellx_y: 4 };
    // below zero
    assert_eq!(size.displace(&coord(2, 2), (-3, -3)), coord(1, 1));
    // beyond the far edge, which is at 8
    assert_eq!(size.displace(&coord(6, 6), (3, 5)), coord(7, 5));
    // several times over: 2 + 21 = 23, folded at 8 and 0 gives 7; 2 - 19 = -17 gives 1
    assert_eq!(size.displace(&coord(2, 2), (21, -19)), coord(7, 1));
    assert_eq!(size.displace(&coord(0, 0), (16, 16)), coord(0, 0));
    assert_eq!(size.displace(&coord(0, 0), (8, -8)), coord(8, 8));
}

#[test]
fn displacement_on_a_lattice_of_one_row() {
    let size = GridSize { cells_x: 3, cellx_y: 0 };
    // nothing moves across, and along the row only by an even number of steps
    assert_eq!(size.displace(&coord(2, 0), (3, 5)), coord(4, 0));
    assert_eq!(size.displace(&coord(2, 0), (-3, 1)), coord(2, 0));
    assert_eq!(size.displace(&coord(2, 0), (-5, 2)), coord(4, 0));
    let column = GridSize { cells_x: 0, cellx_y: 3 };
    assert_eq!(column.displace(&coord(0, 2), (7, 3)), coord(0, 4));
    let point = GridSize { cells_x: 0, cellx_y: 0 };
    assert_eq!(point.displace(&coord(0, 0), (7, -4)), coord(0, 0));
}

#[test]
fn numbers_fold_into_the_lattice() {
    assert_eq!(fold_into(3, 9), 3);
    assert_eq!(fold_into(-3, 9), 3);
    assert_eq!(fold_into(11, 9), 5);
    assert_eq!(fold_into(-11, 9), 5);
    assert_eq!(fold_into(20, 9), 4);
    assert_eq!(fold_into(-20, 9), 4);
    assert_eq!(fold_into(8, 9), 8);
    assert_eq!(fold_into(16, 9), 0);
    assert_eq!(fold_into(0, 1), 0);
    assert_eq!(fold_into(12345, 1), 0);
    assert_eq!(fold_into(1_000_000_000_003, 9), 3);
}

#[test]
fn displacements_may_be_as_long_as_numbers_go() {
    let size = GridSize { cells_x: 2, cellx_y: 2 };
    assert_eq!(size.displace(&coord(0, 0), (isize::MAX, isize::MAX)), coord(1, 1));
    assert_eq!(size.displace(&coord(1, 1), (isize::MAX, isize::MAX)), coord(0, 0));
    assert_eq!(size.displace(&coord(2, 2), (isize::MIN, isize::MIN)), coord(2, 2));
    assert_eq!(size.displace(&coord(0, 0), (2_000_000, -2_000_000)), coord(0, 0));
    assert_eq!(size.displace(&coord(0, 0), (2_000_003, -2_000_001)), coord(3, 1));
}

#[test]
fn nudges_are_even_or_odd_together() {
    assert_eq!(nudge_from(3, 4, 0), (3, 5));
    assert_eq!(nudge_from(3, 5, 1), (-3, 5));
    assert_eq!(nudge_from(2, 5, 2), (2, -4));
    assert_eq!(nudge_from(2, 4, 3), (-2, -4));
    assert_eq!(nudge_from(1, 1, 7), (-1, -1));
}

#[test]
fn random_displacements_keep_their_bounds() {
    let start = coord(0, 0);
    for nudge_size in [1usize, 2, 3, 10, 999] {
        for _ in 0..200 {
            let (x, y) = start.random_displacement(nudge_size);
            assert!(x != 0 && x.unsigned_abs() <= nudge_size);
            assert!(y.unsigned_abs() <= nudge_size + 1);
            assert_eq!((x - y).rem_euclid(2), 0);
        }
    }
}

#[test]
fn random_displacements_vary() {
    let start = coord(0, 0);
    let first = start.random_displacement(1000);
    assert!((0..100).any(|_| start.random_displacement(1000) != first));
}

#[test]
fn lattice_holds_a_value_for_every_coordinate() {
    let size = GridSize { cells_x: 3, cellx_y: 2 };
    let mut grid: DiamondGrid<isize> = DiamondGrid::new(size, |c: &GridCoord| c.x * 100 + c.y);
    assert_eq!(grid.even_nodes.len(), 12);
    assert_eq!(grid.odd_nodes.len(), 6);
    let all = size.all_grid_coordinates();
    assert_eq!(all.len(), 18);
    for c in &all {
        assert_eq!(grid.get(c), c.x * 100 + c.y);
    }
    grid.set(&coord(6, 0), -1);
    grid.set(&coord(5, 3), -2);
    for c in &all {
        let expected = if *c == coord(6, 0) {
            -1
        } else if *c == coord(5, 3) {
            -2
        } else {
            c.x * 100 + c.y
        };
        assert_eq!(grid.get(c), expected, "{:?}", c);
    }
}

#[test]
fn lattice_steps() {
    // the least s with s * s >= 2 * r * r
    assert_eq!(lattice_step(1), 2);
    assert_eq!(lattice_step(5), 8);
    assert_eq!(lattice_step(12), 17);
    assert_eq!(lattice_step(70), 99);
    assert_eq!(lattice_step(1_000_000), 1_414_214);
    assert_eq!(lattice_step(2_560), 3_621);
    assert_eq!(lattice_step(1_073_741_824), 1_518_500_250);
}

#[test]
fn lattice_for_circles_keeps_them_apart_and_inside() {
    let (size, transform) = fit_circles_grid((100, 200), 90, 60, 5);
    // 80 by 50 are left for the centres; a cell takes 16
    assert_eq!(size, GridSize { cells_x: 5, cellx_y: 3 });
    assert_eq!((transform.x_min, transform.y_min), (105, 205));
    assert_eq!((transform.x_max, transform.y_max), (185, 255));
    assert_eq!((transform.cell_width, transform.cell_height), (8, 8));
    let points: Vec<(i64, i64)> =
        size.all_grid_coordinates().iter().map(|c| transform.apply(c)).collect();
    assert_eq!(points[0], (105, 205));
    for (i, a) in points.iter().enumerate() {
        assert!(105 <= a.0 && a.0 <= 185 && 205 <= a.1 && a.1 <= 255);
        for b in &points[..i] {
            let d2 = (a.0 - b.0) * (a.0 - b.0) + (a.1 - b.1) * (a.1 - b.1);
            assert!(d2 >= 100, "{:?} {:?}", a, b);
        }
    }
}

#[test]
fn lattice_for_circles_in_a_narrow_rectangle() {
    let (size, transform) = fit_circles_grid((0, 0), 8, 100, 5);
    assert_eq!(size, GridSize { cells_x: 0, cellx_y: 5 });
    assert_eq!((transform.x_min, transform.x_max), (5, 5));
    assert_eq!(transform.cell_width, 0);
    assert_eq!(transform.cell_height, 9);
    assert_eq!(transform.apply(&coord(0, 10)), (5, 95));
}
