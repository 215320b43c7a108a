//! Who is hidden from whom: the obstacles of a placement in a tree over
//! their bounding boxes, and the exact test on those the tree hands out.

use vstd::prelude::*;

use crate::dto::{Point2D, ProblemDto, COORD_LIMIT};
use crate::geometry::{line_circle_intersection, segment_hits_disk};
use crate::kdtree::aabb::{Bounded, AABB};
use crate::kdtree::kdtree::KDTree;
use crate::kdtree::ray::{disk_box, lemma_ray_reaches_disk};
use crate::scoring::scorer::{
    blocked_by_musician, blocked_by_pillar, pillars_wf, placements_wf, MUSICIAN_RADIUS,
};

verus! {

/// What can stand in a line of sight: a musician or a pillar, each by its
/// number.
#[derive(PartialEq, Eq, Debug, Copy, Clone, Structural)]
pub enum Obstacle {
    Musician(usize),
    Pillar(usize),
}

/// The obstacle with the given number when the pillars are numbered
/// first and the musicians after them.
pub fn lookup_obstacle(pillar_count: usize, index: usize) -> (obstacle: Obstacle)
    ensures
        obstacle == if index < pillar_count {
            Obstacle::Pillar(index)
        } else {
            Obstacle::Musician((index - pillar_count) as usize)
        },
{
    if index < pillar_count {
        return Obstacle::Pillar(index);
    }
    Obstacle::Musician(index - pillar_count)
}

/// A disk that blocks sound.
#[derive(PartialEq, Eq, Debug, Copy, Clone, Structural)]
pub struct Circle {
    pub center: Point2D,
    pub radius: i64,
}

impl Circle {
    /// Centre and radius are within the supported range.
    pub open spec fn wf(&self) -> bool {
        self.center.wf() && 0 <= self.radius <= COORD_LIMIT
    }
}

impl Bounded for Circle {
    open spec fn has_bound(&self) -> bool {
        self.wf()
    }

    open spec fn bounding_box(&self) -> AABB {
        disk_box(self.center, self.radius as int)
    }

    fn bound(&self) -> (aabb: AABB) {
        circle_bounds(&self.center, self.radius)
    }
}

/// The least box around the disk of the given radius around `position`.
pub fn circle_bounds(position: &Point2D, radius: i64) -> (aabb: AABB)
    requires
        position.wf(),
        0 <= radius <= COORD_LIMIT,
    ensures
        aabb == disk_box(*position, radius as int),
{
    let min = Point2D { x: position.x - radius, y: position.y - radius };
    let max = Point2D { x: position.x + radius, y: position.y + radius };
    AABB::new(min, max)
}

/// The disk of an obstacle, if it is there: a musician who is not placed
/// has none.
pub open spec fn circle_of(
    placements: Seq<Option<Point2D>>,
    problem: ProblemDto,
    obstacle: Obstacle,
) -> Option<Circle> {
    match obstacle {
        Obstacle::Musician(i) => match placements[i as int] {
            Some(p) => Some(Circle { center: p, radius: MUSICIAN_RADIUS }),
            None => None,
        },
        Obstacle::Pillar(i) => Some(
            Circle { center: problem.pillars@[i as int].center, radius: problem.pillars@[i as int].radius },
        ),
    }
}

/// The disk of an obstacle, if it is there.
pub fn get_circle(
    placements: &Vec<Option<Point2D>>,
    problem: &ProblemDto,
    obstacle: Obstacle,
) -> (circle: Option<Circle>)
    requires
        match obstacle {
            Obstacle::Musician(i) => i < placements@.len(),
            Obstacle::Pillar(i) => i < problem.pillars@.len(),
        },
    ensures
        circle == circle_of(placements@, *problem, obstacle),
{
    match obstacle {
        Obstacle::Musician(i) => match placements[i] {
            Some(p) => Some(Circle { center: p, radius: MUSICIAN_RADIUS }),
            None => None,
        },
        Obstacle::Pillar(i) => {
            let pillar = &problem.pillars[i];
            Some(Circle { center: pillar.as_vec(), radius: pillar.radius })
        },
    }
}

/// The obstacle with number `index`, the pillars counted first.
pub open spec fn obstacle_at(pillar_count: int, index: int) -> Obstacle {
    if index < pillar_count {
        Obstacle::Pillar(index as usize)
    } else {
        Obstacle::Musician((index - pillar_count) as usize)
    }
}

/// The box around the obstacle with number `index`: the least box around
/// its disk, or the empty box for a musician who is not placed.
pub open spec fn obstacle_box(
    placements: Seq<Option<Point2D>>,
    problem: ProblemDto,
    index: int,
) -> AABB {
    match circle_of(placements, problem, obstacle_at(problem.pillars@.len() as int, index)) {
        Some(circle) => disk_box(circle.center, circle.radius as int),
        None => AABB {
            min: Point2D { x: i64::MAX, y: i64::MAX },
            max: Point2D { x: i64::MIN, y: i64::MIN },
        },
    }
}

/// Answers whether a musician is hidden from an attendee, with the help
/// of a tree over the boxes of all pillars and placed musicians.
#[derive(Debug)]
pub struct Collider<'sol, 'pro> {
    pub placements: &'sol Vec<Option<Point2D>>,
    pub problem: &'pro ProblemDto,
    pub tree: Option<KDTree>,
}

impl<'sol, 'pro> Collider<'sol, 'pro> {
    /// The number of pillars.
    pub fn pillar_count(&self) -> (count: usize)
        ensures
            count == self.problem.pillars@.len(),
    {
        self.problem.pillars.len()
    }

    /// The tree holds the box of every obstacle under its number.
    pub open spec fn wf(&self) -> bool {
        &&& pillars_wf(self.problem.pillars@)
        &&& placements_wf(self.placements@)
        &&& self.problem.pillars@.len() + self.placements@.len() <= usize::MAX
        &&& match self.tree {
            Some(tree) => {
                &&& tree.wf()
                &&& tree.boxes@.len() == self.problem.pillars@.len() + self.placements@.len()
                &&& forall|index: int|
                    0 <= index < tree.boxes@.len() ==> #[trigger] tree.boxes@[index]
                        == obstacle_box(self.placements@, *self.problem, index)
            },
            None => self.problem.pillars@.len() + self.placements@.len() == 0,
        }
    }

    /// The boxes of the obstacles, under their numbers.
    pub fn obstacle_shapes(problem: &ProblemDto, placements: &Vec<Option<Point2D>>) -> (shapes:
        Vec<AABB>)
        requires
            pillars_wf(problem.pillars@),
            placements_wf(placements@),
            problem.pillars@.len() + placements@.len() <= usize::MAX,
        ensures
            shapes@.len() == problem.pillars@.len() + placements@.len(),
            forall|index: int|
                0 <= index < shapes@.len() ==> #[trigger] shapes@[index] == obstacle_box(
                    placements@,
                    *problem,
                    index,
                ),
    {
        let pillar_count = problem.pillars.len();
        let node_count = pillar_count + placements.len();
        let mut shapes: Vec<AABB> = Vec::new();
        let mut i: usize = 0;
        while i < node_count
            invariant
                i <= node_count,
                pillar_count == problem.pillars@.len(),
                node_count == problem.pillars@.len() + placements@.len(),
                pillars_wf(problem.pillars@),
                placements_wf(placements@),
                shapes@.len() == i,
                forall|index: int|
                    0 <= index < i ==> #[trigger] shapes@[index] == obstacle_box(
                        placements@,
                        *problem,
                        index,
                    ),
            decreases node_count - i,
        {
            let obstacle = lookup_obstacle(pillar_count, i);
            let shape = match get_circle(placements, problem, obstacle) {
                Some(circle) => {
                    proof {
                        match obstacle {
                            Obstacle::Musician(m) => {
                                assert(placements@[m as int].is_some());
                            },
                            Obstacle::Pillar(p) => {
                                assert(problem.pillars@[p as int].wf());
                            },
                        }
                    }
                    circle_bounds(&circle.center, circle.radius)
                },
                None => AABB::empty(),
            };
            shapes.push(shape);
            i += 1;
        }
        shapes
    }

    /// Builds the tree over the pillars of the problem and the musicians
    /// who are placed.
    pub fn new(problem: &'pro ProblemDto, placements: &'sol Vec<Option<Point2D>>) -> (collider:
        Collider<'sol, 'pro>)
        requires
            pillars_wf(problem.pillars@),
            placements_wf(placements@),
            problem.pillars@.len() + placements@.len() <= usize::MAX,
        ensures
            collider.wf(),
            collider.problem == problem,
            collider.placements == placements,
    {
        let shapes = Self::obstacle_shapes(problem, placements);
        let tree = if shapes.len() == 0 {
            None
        } else {
            Some(KDTree::build(&shapes))
        };
        Collider { problem, placements, tree }
    }

    /// Looks at another placement of the same musicians: the boxes of the
    /// tree are taken anew, and the split of the obstacles over its leaves
    /// stays.
    pub fn refit(&mut self, placements: &'sol Vec<Option<Point2D>>)
        requires
            old(self).wf(),
            placements_wf(placements@),
            placements@.len() == old(self).placements@.len(),
        ensures
            final(self).wf(),
            final(self).problem == old(self).problem,
            final(self).placements == placements,
    {
        let shapes = Self::obstacle_shapes(self.problem, placements);
        self.placements = placements;
        match &mut self.tree {
            Some(tree) => {
                tree.refit(&shapes);
            },
            None => {},
        }
    }

    /// Tells whether a pillar or a placed musician other than
    /// `musician_i` stands in the line of sight from attendee `attendee_i`
    /// to musician `musician_i`.
    pub fn is_hidden(&self, attendee_i: usize, musician_i: usize) -> (hidden: bool)
        requires
            self.wf(),
            attendee_i < self.problem.attendees@.len(),
            self.problem.attendees@[attendee_i as int].position().wf(),
            musician_i < self.placements@.len(),
            self.placements@[musician_i as int].is_some(),
        ensures
            hidden == (blocked_by_musician(
                self.problem.attendees@[attendee_i as int].position(),
                self.placements@[musician_i as int].unwrap(),
                self.placements@,
                musician_i as int,
            ) || blocked_by_pillar(
                self.problem.attendees@[attendee_i as int].position(),
                self.placements@[musician_i as int].unwrap(),
                self.problem.pillars@,
            )),
    {
        let attendee_location = self.problem.attendees[attendee_i].as_vec();
        let musician_location = match self.placements[musician_i] {
            Some(location) => location,
            None => attendee_location,
        };
        let dir = Point2D {
            x: musician_location.x - attendee_location.x,
            y: musician_location.y - attendee_location.y,
        };
        let pillar_count = self.pillar_count();
        let ghost placements = self.placements@;
        let ghost pillars = self.problem.pillars@;
        match &self.tree {
            None => false,
            Some(tree) => {
                let candidates = tree.intersect(&attendee_location, &dir);
                let mut k: usize = 0;
                while k < candidates.len()
                    invariant
                        k <= candidates@.len(),
                        self.wf(),
                        self.tree == Some(*tree),
                        pillar_count == self.problem.pillars@.len(),
                        placements == self.placements@,
                        pillars == self.problem.pillars@,
                        attendee_location.wf(),
                        musician_location.wf(),
                        attendee_i < self.problem.attendees@.len(),
                        musician_i < self.placements@.len(),
                        attendee_location == self.problem.attendees@[attendee_i as int].position(),
                        self.placements@[musician_i as int] == Some(musician_location),
                        forall|j: int|
                            0 <= j < candidates@.len() ==> (#[trigger] candidates@[j])
                                < tree.boxes@.len(),
                        forall|j: int|
                            0 <= j < k ==> !obstacle_hides(
                                placements,
                                *self.problem,
                                attendee_location,
                                musician_location,
                                musician_i as int,
                                (#[trigger] candidates@[j]) as int,
                            ),
                    decreases candidates@.len() - k,
                {
                    let node_index = candidates[k];
                    let obstacle = lookup_obstacle(pillar_count, node_index);
                    let skip = match obstacle {
                        Obstacle::Musician(m) => m == musician_i,
                        Obstacle::Pillar(_) => false,
                    };
                    if !skip {
                        if let Some(circle) = get_circle(self.placements, self.problem, obstacle) {
                            proof {
                                match obstacle {
                                    Obstacle::Musician(m) => {
                                        assert(placements[m as int].is_some());
                                    },
                                    Obstacle::Pillar(p) => {
                                        assert(pillars[p as int].wf());
                                    },
                                }
                            }
                            if line_circle_intersection(
                                &attendee_location,
                                &musician_location,
                                &circle.center,
                                circle.radius,
                            ) {
                                proof {
                                    match obstacle {
                                        Obstacle::Musician(m) => {
                                            assert(placements[m as int].is_some());
                                            assert(segment_hits_disk(
                                                attendee_location,
                                                musician_location,
                                                placements[m as int].unwrap(),
                                                MUSICIAN_RADIUS as int,
                                            ));
                                            assert(blocked_by_musician(
                                                attendee_location,
                                                musician_location,
                                                placements,
                                                musician_i as int,
                                            ));
                                        },
                                        Obstacle::Pillar(p) => {
                                            assert(segment_hits_disk(
                                                attendee_location,
                                                musician_location,
                                                pillars[p as int].position(),
                                                pillars[p as int].radius as int,
                                            ));
                                            assert(blocked_by_pillar(
                                                attendee_location,
                                                musician_location,
                                                pillars,
                                            ));
                                        },
                                    }
                                }
                                return true;
                            }
                        }
                    }
                    k += 1;
                }
                proof {
                    if blocked_by_musician(
                        attendee_location,
                        musician_location,
                        placements,
                        musician_i as int,
                    ) {
                        let j = choose|j: int|
                            0 <= j < placements.len() && j != musician_i && (
                            #[trigger] placements[j]).is_some() && segment_hits_disk(
                                attendee_location,
                                musician_location,
                                placements[j].unwrap(),
                                MUSICIAN_RADIUS as int,
                            );
                        let index = pillar_count + j;
                        assert(tree.boxes@[index] == obstacle_box(placements, *self.problem, index));
                        lemma_ray_reaches_disk(
                            attendee_location,
                            musician_location,
                            placements[j].unwrap(),
                            MUSICIAN_RADIUS as int,
                            dir,
                            tree.boxes@[index],
                        );
                        assert(candidates@.contains(index as usize));
                        let at = choose|at: int|
                            0 <= at < candidates@.len() && candidates@[at] == index as usize;
                        assert(obstacle_hides(
                            placements,
                            *self.problem,
                            attendee_location,
                            musician_location,
                            musician_i as int,
                            candidates@[at] as int,
                        ));
                    }
                    if blocked_by_pillar(attendee_location, musician_location, pillars) {
                        let p = choose|p: int|
                            0 <= p < pillars.len() && segment_hits_disk(
                                attendee_location,
                                musician_location,
                                (#[trigger] pillars[p]).position(),
                                pillars[p].radius as int,
                            );
                        assert(pillars[p].wf());
                        assert(tree.boxes@[p] == obstacle_box(placements, *self.problem, p));
                        lemma_ray_reaches_disk(
                            attendee_location,
                            musician_location,
                            pillars[p].position(),
                            pillars[p].radius as int,
                            dir,
                            tree.boxes@[p],
                        );
                        assert(candidates@.contains(p as usize));
                        let at = choose|at: int|
                            0 <= at < candidates@.len() && candidates@[at] == p as usize;
                        assert(obstacle_hides(
                            placements,
                            *self.problem,
                            attendee_location,
                            musician_location,
                            musician_i as int,
                            candidates@[at] as int,
                        ));
                    }
                }
                false
            },
        }
    }
}

/// The obstacle with number `index` is not musician `musician`, is there,
/// and its disk meets the segment from `origin` to `target`.
pub open spec fn obstacle_hides(
    placements: Seq<Option<Point2D>>,
    problem: ProblemDto,
    origin: Point2D,
    target: Point2D,
    musician: int,
    index: int,
) -> bool {
    let obstacle = obstacle_at(problem.pillars@.len() as int, index);
    obstacle != Obstacle::Musician(musician as usize) && match circle_of(
        placements,
        problem,
        obstacle,
    ) {
        Some(circle) => segment_hits_disk(origin, target, circle.center, circle.radius as int),
        None => false,
    }
}

} // verus!
