use stage_placer::collider::{
    circle_bounds, get_circle, lookup_obstacle, Circle, Collider, Obstacle,
};
use stage_placer::dto::{Attendee, Instrument, PillarDto, Point2D, ProblemDto};
use stage_placer::geometry::line_circle_intersection;
use stage_placer::kdtree::aabb::{Bounded, AABB};
use stage_placer::kdtree::kdtree::{BuilderConfig, KDTree, KDTreeNode};
use stage_placer::kdtree::plane::{Dimension, Plane};
use stage_placer::kdtree::ray::Ray;
use stage_placer::scoring::new_scorer::{compute_closeness, new_score};
use stage_placer::scoring::scorer::score;
use stage_placer::scoring::Scorer;
use stage_placer::solvers::Problem;

/// Steps in a unit of length.
const U: i64 = 512;

fn point(x: i64, y: i64) -> Point2D {
    Point2D { x, y }
}

/// The point at a place given in units.
fn at(x: i64, y: i64) -> Point2D {
    Point2D { x: x * U, y: y * U }
}

fn rect(x0: i64, y0: i64, x1: i64, y1: i64) -> AABB {
    AABB::new(point(x0, y0), point(x1, y1))
}

/// A number between 0 and `below` that depends on `seed` alone.
fn scattered(seed: u64, below: i64) -> i64 {
    let mixed = seed.wrapping_mul(6364136223846793005).wrapping_add(1442695040888963407);
    ((mixed >> 33) % below as u64) as i64
}

fn crowded_problem() -> (ProblemDto, Vec<Option<Point2D>>) {
    let attendees = (0..40)
        .map(|i| Attendee {
            x: (scattered(i, 600) - 100) * U,
            y: if i % 2 == 0 {
                (-40 - scattered(i + 100, 60)) * U
            } else {
                (340 + scattered(i + 100, 60)) * U
            },
            tastes: vec![
                (scattered(i + 200, 2000) - 1000) * 1000,
                (scattered(i + 300, 2000) - 1000) * 1000,
            ],
        })
        .collect();
    let pillars = (0..12)
        .map(|i| PillarDto {
            center: at(scattered(i + 400, 500) - 50, -30 + scattered(i + 500, 20)),
            radius: (2 + scattered(i + 600, 9)) * U,
        })
        .collect();
    let mut placements = vec![];
    for row in 0..6 {
        for col in 0..9 {
            placements.push(if (row + col) % 7 == 3 {
                None
            } else {
                Some(at(20 + col * 40 + row, 20 + row * 45))
            });
        }
    }
    let problem = ProblemDto {
        room_width: 1000 * U,
        room_height: 1000 * U,
        stage_width: 400 * U,
        stage_height: 300 * U,
        stage_bottom_left: point(0, 0),
        musicians: (0..54).map(|i| Instrument(i % 2)).collect(),
        attendees,
        pillars,
    };
    (problem, placements)
}

#[test]
fn obstacles_are_numbered_pillars_first() {
    assert_eq!(lookup_obstacle(3, 0), Obstacle::Pillar(0));
    assert_eq!(lookup_obstacle(3, 2), Obstacle::Pillar(2));
    assert_eq!(lookup_obstacle(3, 3), Obstacle::Musician(0));
    assert_eq!(lookup_obstacle(3, 10), Obstacle::Musician(7));
    assert_eq!(lookup_obstacle(0, 0), Obstacle::Musician(0));
}

#[test]
fn circles_of_obstacles() {
    let (problem, placements) = crowded_problem();
    assert_eq!(
        get_circle(&placements, &problem, Obstacle::Musician(0)),
        Some(Circle { center: at(20, 20), radius: 5 * U })
    );
    assert_eq!(get_circle(&placements, &problem, Obstacle::Musician(3)), None);
    let pillar = problem.pillars[4];
    assert_eq!(
        get_circle(&placements, &problem, Obstacle::Pillar(4)),
        Some(Circle { center: pillar.center, radius: pillar.radius })
    );
}

#[test]
fn box_around_a_circle() {
    assert_eq!(circle_bounds(&point(10, -3), 4), rect(6, -7, 14, 1));
    assert_eq!(Circle { center: point(0, 0), radius: 0 }.bound(), rect(0, 0, 0, 0));
}

#[test]
fn boxes_merge_to_the_least_box_around_both() {
    let mut a = rect(0, 0, 4, 4);
    a.merge(&rect(2, -3, 9, 1));
    assert_eq!(a, rect(0, -3, 9, 4));
    let mut e = AABB::empty();
    assert_eq!(e, AABB::default());
    assert_eq!(e.min, point(i64::MAX, i64::MAX));
    assert_eq!(e.max, point(i64::MIN, i64::MIN));
    e.merge(&rect(2, -3, 9, 1));
    assert_eq!(e, rect(2, -3, 9, 1));
    e.merge(&AABB::empty());
    assert_eq!(e, rect(2, -3, 9, 1));
    assert_eq!(e.bound(), e);
}

#[test]
fn area_of_a_box() {
    assert_eq!(rect(-2, 3, 4, 10).area(), 42);
    assert_eq!(rect(-2, 3, 4, 10).surface(), 84);
    assert_eq!(rect(5, 5, 5, 9).area(), 0);
}

#[test]
fn planes_cut_what_they_lie_within() {
    let space = rect(0, 10, 4, 20);
    assert!(Plane::new_x(2).is_cutting(&space));
    assert!(!Plane::new_x(0).is_cutting(&space));
    assert!(!Plane::new_x(4).is_cutting(&space));
    assert!(!Plane::new_x(12).is_cutting(&space));
    assert!(Plane::new_y(12).is_cutting(&space));
    assert!(!Plane::new_y(2).is_cutting(&space));
    assert_eq!(Plane::new(Dimension::Y, 7), Plane { dimension: Dimension::Y, pos: 7 });
}

#[test]
fn rays_and_boxes() {
    let b = rect(10, 10, 20, 20);
    let hits = |ox: i64, oy: i64, dx: i64, dy: i64| Ray::new(&point(ox, oy), &point(dx, dy)).intersect(&b);
    // straight at it, and away from it
    assert!(hits(0, 15, 1, 0));
    assert!(!hits(0, 15, -1, 0));
    assert!(hits(15, 30, 0, -7));
    assert!(!hits(15, 30, 0, 7));
    // past a corner, through a corner, and through the middle
    assert!(!hits(0, 0, 3, 1));
    assert!(hits(0, 0, 2, 1));
    assert!(hits(0, 0, 1, 1));
    assert!(hits(0, 5, 2, 1));
    assert!(hits(0, 30, 1, -1));
    assert!(hits(0, 40, 1, -1));
    assert!(!hits(0, 41, 1, -1));
    // from within
    assert!(hits(15, 15, 3, -8));
    assert!(hits(15, 15, 0, 0));
    // a ray that is one point
    assert!(!hits(0, 0, 0, 0));
    // along an edge, and just off it
    assert!(hits(0, 10, 5, 0));
    assert!(!hits(0, 9, 5, 0));
    // an empty box is never met
    let ray = Ray::new(&point(0, 0), &point(1, 1));
    assert!(!ray.intersect(&AABB::empty()));
    assert!(!ray.intersect(&rect(5, 5, 4, 9)));
}

fn leaves(node: &KDTreeNode, into: &mut Vec<Vec<usize>>) {
    match node {
        KDTreeNode::Leaf { shapes } => into.push(shapes.clone()),
        KDTreeNode::Node { l_child, r_child, .. } => {
            leaves(l_child, into);
            leaves(r_child, into);
        }
    }
}

#[test]
fn tree_holds_every_shape_once() {
    let shapes: Vec<AABB> =
        (0..200).map(|i| circle_bounds(&point(scattered(i, 1000), scattered(i + 7, 1000)), 5)).collect();
    let tree = KDTree::build(&shapes);
    assert_eq!(tree.boxes, shapes);
    let mut found = vec![];
    leaves(&tree.root, &mut found);
    assert!(found.len() > 8);
    assert!(found.iter().all(|leaf| leaf.len() <= 4));
    let mut all: Vec<usize> = found.concat();
    all.sort();
    assert_eq!(all, (0..200).collect::<Vec<_>>());
    assert_eq!(tree.bound(), tree.space);
    for shape in &shapes {
        assert!(tree.space.min.x <= shape.min.x && shape.max.x <= tree.space.max.x);
        assert!(tree.space.min.y <= shape.min.y && shape.max.y <= tree.space.max.y);
    }
}

/// The least box around the boxes.
fn least_around(shapes: &[AABB]) -> AABB {
    rect(
        shapes.iter().map(|s| s.min.x).min().unwrap(),
        shapes.iter().map(|s| s.min.y).min().unwrap(),
        shapes.iter().map(|s| s.max.x).max().unwrap(),
        shapes.iter().map(|s| s.max.y).max().unwrap(),
    )
}

#[test]
fn tree_lies_in_the_least_box_around_its_shapes() {
    let mut shapes: Vec<AABB> =
        (0..120).map(|i| circle_bounds(&point(scattered(i, 900) - 300, scattered(i + 7, 500)), 5)).collect();
    let mut tree = KDTree::build(&shapes);
    assert_eq!(tree.space, least_around(&shapes));
    let deep = KDTree::build_config(&shapes, &BuilderConfig { max_depth: 3, leaf_size: 1 });
    assert_eq!(deep.space, least_around(&shapes));
    for (i, shape) in shapes.iter_mut().enumerate() {
        *shape = circle_bounds(&point(shape.min.x - 40 * (i as i64 % 3), shape.min.y + 11), 7);
    }
    tree.refit(&shapes);
    assert_eq!(tree.space, least_around(&shapes));
}

#[test]
fn tree_of_one_leaf() {
    let shapes = vec![rect(0, 0, 1, 1), rect(5, 5, 6, 6), rect(9, 0, 10, 1)];
    let tree = KDTree::build(&shapes);
    let mut found = vec![];
    leaves(&tree.root, &mut found);
    assert_eq!(found, vec![vec![0, 1, 2]]);
    assert_eq!(tree.space, rect(0, 0, 10, 6));
    let shallow = KDTree::build_config(&shapes, &BuilderConfig { max_depth: 0, leaf_size: 0 });
    let mut found = vec![];
    leaves(&shallow.root, &mut found);
    assert_eq!(found, vec![vec![0, 1, 2]]);
    let deep = KDTree::build_config(&shapes, &BuilderConfig { max_depth: 9, leaf_size: 1 });
    let mut found = vec![];
    leaves(&deep.root, &mut found);
    assert_eq!(found, vec![vec![0], vec![1], vec![2]]);
    assert_eq!(BuilderConfig::default(), BuilderConfig { max_depth: 32, leaf_size: 4 });
}

#[test]
fn tree_finds_every_box_that_a_ray_meets() {
    let shapes: Vec<AABB> =
        (0..300).map(|i| circle_bounds(&point(scattered(i, 1000), scattered(i + 7, 1000)), 5)).collect();
    let tree = KDTree::build(&shapes);
    let mut fewer = 0;
    for q in 0..200 {
        let origin = point(scattered(q + 1000, 1000), scattered(q + 2000, 1000));
        let direction = point(scattered(q + 3000, 200) - 100, scattered(q + 4000, 200) - 100);
        let found = tree.intersect(&origin, &direction);
        let ray = Ray::new(&origin, &direction);
        for (i, shape) in shapes.iter().enumerate() {
            if ray.intersect(shape) {
                assert!(found.contains(&i));
            }
        }
        assert!(found.iter().all(|i| *i < shapes.len()));
        if found.len() < shapes.len() / 2 {
            fewer += 1;
        }
    }
    // the tree is there to look at fewer shapes
    assert!(fewer > 150);
}

#[test]
fn refit_follows_the_shapes() {
    let mut shapes: Vec<AABB> =
        (0..50).map(|i| circle_bounds(&point(scattered(i, 300), scattered(i + 7, 300)), 5)).collect();
    let mut tree = KDTree::build(&shapes);
    let mut before = vec![];
    leaves(&tree.root, &mut before);
    for (i, shape) in shapes.iter_mut().enumerate() {
        *shape = circle_bounds(&point(shape.min.x + 5 + 400 * (i as i64 % 2), shape.min.y + 9), 5);
    }
    tree.refit(&shapes);
    assert_eq!(tree.boxes, shapes);
    let mut after = vec![];
    leaves(&tree.root, &mut after);
    assert_eq!(before, after);
    for q in 0..100 {
        let origin = point(scattered(q + 1000, 700), scattered(q + 2000, 300));
        let direction = point(scattered(q + 3000, 200) - 100, scattered(q + 4000, 200) - 100);
        let found = tree.intersect(&origin, &direction);
        let ray = Ray::new(&origin, &direction);
        for (i, shape) in shapes.iter().enumerate() {
            if ray.intersect(shape) {
                assert!(found.contains(&i));
            }
        }
    }
}

#[test]
fn hidden_is_what_the_exact_test_says() {
    let (problem, placements) = crowded_problem();
    let collider = Collider::new(&problem, &placements);
    assert_eq!(collider.pillar_count(), 12);
    let mut hidden = 0;
    for (a, attendee) in problem.attendees.iter().enumerate() {
        let eye = point(attendee.x, attendee.y);
        for (m, placement) in placements.iter().enumerate() {
            if let Some(target) = placement {
                let by_pillar = problem
                    .pillars
                    .iter()
                    .any(|p| line_circle_intersection(&eye, target, &p.center, p.radius));
                let by_musician = placements.iter().enumerate().any(|(other, place)| {
                    other != m
                        && place
                            .map_or(false, |c| line_circle_intersection(&eye, target, &c, 5 * U))
                });
                assert_eq!(collider.is_hidden(a, m), by_pillar || by_musician);
                if by_pillar || by_musician {
                    hidden += 1;
                }
            }
        }
    }
    assert!(hidden > 100 && hidden < 40 * 54 - 100);
}

#[test]
fn refitted_collider_sees_the_new_placement() {
    let (problem, placements) = crowded_problem();
    let moved: Vec<Option<Point2D>> = placements
        .iter()
        .enumerate()
        .map(|(m, place)| {
            place.map(|p| point(p.x + 3 * U * (m as i64 % 5), p.y - 2 * U * (m as i64 % 3)))
        })
        .collect();
    let mut collider = Collider::new(&problem, &placements);
    collider.refit(&moved);
    let rebuilt = Collider::new(&problem, &moved);
    let mut differs = 0;
    let before = Collider::new(&problem, &placements);
    for a in 0..problem.attendees.len() {
        for m in 0..moved.len() {
            if moved[m].is_some() {
                assert_eq!(collider.is_hidden(a, m), rebuilt.is_hidden(a, m));
                if collider.is_hidden(a, m) != before.is_hidden(a, m) {
                    differs += 1;
                }
            }
        }
    }
    assert!(differs > 0);
}

#[test]
fn collider_without_obstacles() {
    let problem = ProblemDto {
        attendees: vec![Attendee { x: 0, y: 0, tastes: vec![] }],
        ..ProblemDto::default()
    };
    let placements = vec![];
    let collider = Collider::new(&problem, &placements);
    assert!(collider.tree.is_none());
}

#[test]
fn both_scorers_agree() {
    let (problem, placements) = crowded_problem();
    assert!(problem.is_valid());
    let plain = score(&problem, &placements, None);
    assert_eq!(new_score(&problem, &placements, None), plain);
    assert_ne!(plain.0, 0);
    let volumes: Vec<u32> = (0..54).map(|i| (i % 11) * 1_000_000).collect();
    let loud = score(&problem, &placements, Some(&volumes));
    assert_eq!(new_score(&problem, &placements, Some(&volumes)), loud);
    assert_ne!(loud, plain);
    assert_eq!(Scorer::Legacy.score(&problem, &placements, None), plain);
    assert_eq!(Scorer::New.score(&problem, &placements, None), plain);
    assert_eq!(Scorer::default(), Scorer::New);
    assert_eq!((Scorer::Legacy.name(), Scorer::New.name()), ("legacy", "new"));
    let wrapped = Problem { data: problem.clone(), ..Problem::default() };
    assert_eq!(wrapped.score(&placements, Some(&volumes)), loud);
    let without_pillars = ProblemDto { pillars: vec![], ..problem };
    assert_eq!(
        new_score(&without_pillars, &placements, None),
        score(&without_pillars, &placements, None)
    );
}

#[test]
fn closeness_of_every_musician() {
    let problem = ProblemDto {
        musicians: vec![Instrument(0), Instrument(1), Instrument(0)],
        ..ProblemDto::default()
    };
    let placements = vec![Some(at(0, 0)), Some(at(3, 4)), Some(at(30, 40))];
    assert_eq!(compute_closeness(&problem, &placements), vec![1_020_000, 1_000_000, 1_020_000]);
}
