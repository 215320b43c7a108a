//! The annealer: random changes of a placement on a lattice, of which
//! the caller keeps or undoes those that do not raise the score.

use rand::seq::SliceRandom;
use vstd::prelude::*;

use crate::common::{SEPARATION_SQ, STAGE_MARGIN};
use crate::diamond_grid::{
    circle_cells, coord_before, fit_circles_grid, is_lattice_step, lemma_lattice_separation,
    lemma_lattice_step_is, random_between, DiamondGrid, GridCoord, GridSize, GridTransform,
    CELL_LIMIT,
};
use crate::dto::{Point2D, SolutionDto};
use crate::geometry::dist2;
use crate::scoring::scorer::{
    placements_wf, score_of, MAX_VOLUME, MUSICIAN_RADIUS, TOTAL_LIMIT,
};
use crate::solvers::{Problem, Score};

verus! {

/// The search ends when more than this many seconds have gone by: twenty
/// minutes.
pub const TIME_LIMIT_SECS: u64 = 1_200;

/// How many steps the search makes for each musician.
pub const STEPS_PER_MUSICIAN: usize = 500;

/// Every musician stands on a coordinate of the lattice, the lattice
/// names at that coordinate this musician, and at every coordinate where
/// it names a musician this musician stands there. So no two musicians
/// share a coordinate.
pub open spec fn occupancy_consistent(
    placements: Seq<GridCoord>,
    grid: DiamondGrid<Option<usize>>,
) -> bool {
    &&& grid.wf()
    &&& placements.len() <= usize::MAX
    &&& forall|i: int|
        0 <= i < placements.len() ==> grid.size.contains(#[trigger] placements[i]) && grid.at(
            placements[i],
        ) == Some(i as usize)
    &&& forall|c: GridCoord|
        grid.size.contains(c) ==> match #[trigger] grid.at(c) {
            Some(i) => i < placements.len() && placements[i as int] == c,
            None => true,
        }
}

/// With a consistent occupancy no two musicians share a coordinate.
pub proof fn lemma_no_shared_coordinate(
    placements: Seq<GridCoord>,
    grid: DiamondGrid<Option<usize>>,
    i: int,
    j: int,
)
    requires
        occupancy_consistent(placements, grid),
        0 <= i < placements.len(),
        0 <= j < placements.len(),
        i != j,
    ensures
        placements[i] != placements[j],
{
    assert(grid.at(placements[i]) == Some(i as usize));
    assert(grid.at(placements[j]) == Some(j as usize));
}

/// The placement decides the occupancy: two lattices of one size that are
/// both consistent with it name the same musician at every coordinate.
pub proof fn lemma_occupancy_determined(
    placements: Seq<GridCoord>,
    first: DiamondGrid<Option<usize>>,
    second: DiamondGrid<Option<usize>>,
    c: GridCoord,
)
    requires
        occupancy_consistent(placements, first),
        occupancy_consistent(placements, second),
        first.size == second.size,
        first.size.contains(c),
    ensures
        first.at(c) == second.at(c),
{
    match first.at(c) {
        Some(i) => {
            assert(placements[i as int] == c);
            assert(second.at(placements[i as int]) == Some(i));
        },
        None => {
            match second.at(c) {
                Some(j) => {
                    assert(placements[j as int] == c);
                    assert(first.at(placements[j as int]) == Some(j));
                },
                None => {},
            }
        },
    }
}

/// A change of a placement on the lattice: two musicians swap their
/// coordinates, or one moves to a free coordinate.
#[derive(Clone, Copy, Debug, PartialEq, Eq, Structural)]
pub enum MusicianChange {
    Swap { musician_a: usize, musician_b: usize },
    Move { musician: usize, location: GridCoord },
}

impl MusicianChange {
    /// The change can be made: it names musicians of the placement, and a
    /// move goes to a free coordinate of the lattice.
    pub open spec fn applicable(
        &self,
        placements: Seq<GridCoord>,
        grid: DiamondGrid<Option<usize>>,
    ) -> bool {
        match *self {
            MusicianChange::Swap { musician_a, musician_b } => musician_a < placements.len()
                && musician_b < placements.len(),
            MusicianChange::Move { musician, location } => musician < placements.len()
                && grid.size.contains(location) && grid.at(location).is_none(),
        }
    }

    /// The placement after the change.
    pub open spec fn applied(&self, placements: Seq<GridCoord>) -> Seq<GridCoord> {
        match *self {
            MusicianChange::Swap { musician_a, musician_b } => placements.update(
                musician_b as int,
                placements[musician_a as int],
            ).update(musician_a as int, placements[musician_b as int]),
            MusicianChange::Move { musician, location } => placements.update(
                musician as int,
                location,
            ),
        }
    }

    /// The change that undoes this one when made after it.
    pub open spec fn reverse(&self, placements: Seq<GridCoord>) -> MusicianChange {
        match *self {
            MusicianChange::Swap { musician_a, musician_b } => *self,
            MusicianChange::Move { musician, location } => MusicianChange::Move {
                musician,
                location: placements[musician as int],
            },
        }
    }

    /// A change and then its reverse leave the placement as it was.
    pub proof fn lemma_reverse_restores(&self, placements: Seq<GridCoord>)
        requires
            match *self {
                MusicianChange::Swap { musician_a, musician_b } => musician_a < placements.len()
                    && musician_b < placements.len(),
                MusicianChange::Move { musician, location } => musician < placements.len(),
            },
        ensures
            self.reverse(placements).applied(self.applied(placements)) == placements,
    {
        assert(self.reverse(placements).applied(self.applied(placements)) =~= placements);
    }

    /// Makes the change on the placement and on the lattice, and returns
    /// the change that undoes it.
    pub fn apply(
        &self,
        placements: &mut Vec<GridCoord>,
        grid: &mut DiamondGrid<Option<usize>>,
    ) -> (undo: Self)
        requires
            occupancy_consistent(old(placements)@, *old(grid)),
            self.applicable(old(placements)@, *old(grid)),
        ensures
            final(placements)@ == self.applied(old(placements)@),
            final(grid).size == old(grid).size,
            occupancy_consistent(final(placements)@, *final(grid)),
            undo == self.reverse(old(placements)@),
            undo.applicable(final(placements)@, *final(grid)),
    {
        let ghost before = placements@;
        let ghost grid_before = *grid;
        match self {
            MusicianChange::Swap { musician_a, musician_b } => {
                let loc_a = placements[*musician_a];
                let loc_b = placements[*musician_b];
                placements.set(*musician_b, loc_a);
                placements.set(*musician_a, loc_b);
                grid.set(&loc_a, Some(*musician_b));
                let ghost grid_mid = *grid;
                grid.set(&loc_b, Some(*musician_a));
                proof {
                    assert(placements@ =~= self.applied(before));
                    assert forall|i: int| 0 <= i < placements@.len() implies grid.size.contains(
                        #[trigger] placements@[i],
                    ) && grid.at(placements@[i]) == Some(i as usize) by {
                        if i != *musician_a && i != *musician_b {
                            assert(placements@[i] == before[i]);
                            lemma_no_shared_coordinate(before, grid_before, i, *musician_a as int);
                            lemma_no_shared_coordinate(before, grid_before, i, *musician_b as int);
                            assert(grid_mid.at(before[i]) == grid_before.at(before[i]));
                        } else if i == *musician_a {
                            assert(placements@[i] == loc_b);
                        } else {
                            assert(placements@[i] == loc_a);
                            if loc_a != loc_b {
                                assert(grid.at(loc_a) == grid_mid.at(loc_a));
                            } else {
                                if *musician_a != *musician_b {
                                    lemma_no_shared_coordinate(
                                        before,
                                        grid_before,
                                        *musician_a as int,
                                        *musician_b as int,
                                    );
                                }
                            }
                        }
                    }
                    assert forall|c: GridCoord| grid.size.contains(c) implies match #[trigger] grid.at(
                        c,
                    ) {
                        Some(i) => i < placements@.len() && placements@[i as int] == c,
                        None => true,
                    } by {
                        if c != loc_a && c != loc_b {
                            assert(grid.at(c) == grid_mid.at(c));
                            assert(grid_mid.at(c) == grid_before.at(c));
                            match grid_before.at(c) {
                                Some(i) => {
                                    assert(before[i as int] == c);
                                    assert(i != *musician_a && i != *musician_b);
                                },
                                None => {},
                            }
                        } else if c == loc_b {
                        } else {
                            assert(grid.at(c) == grid_mid.at(c));
                        }
                    }
                }
                *self
            },
            MusicianChange::Move { musician, location } => {
                let old_location = placements[*musician];
                placements.set(*musician, *location);
                grid.set(&old_location, None);
                let ghost grid_mid = *grid;
                grid.set(location, Some(*musician));
                proof {
                    assert(grid_before.at(old_location) == Some(*musician));
                    assert(old_location != *location);
                    assert forall|i: int| 0 <= i < placements@.len() implies grid.size.contains(
                        #[trigger] placements@[i],
                    ) && grid.at(placements@[i]) == Some(i as usize) by {
                        if i != *musician {
                            assert(placements@[i] == before[i]);
                            lemma_no_shared_coordinate(before, grid_before, i, *musician as int);
                            assert(grid_before.at(before[i]) == Some(i as usize));
                            assert(before[i] != *location);
                            assert(grid_mid.at(before[i]) == grid_before.at(before[i]));
                            assert(grid.at(before[i]) == grid_mid.at(before[i]));
                        }
                    }
                    assert forall|c: GridCoord| grid.size.contains(c) implies match #[trigger] grid.at(
                        c,
                    ) {
                        Some(i) => i < placements@.len() && placements@[i as int] == c,
                        None => true,
                    } by {
                        if c != *location {
                            assert(grid.at(c) == grid_mid.at(c));
                            if c != old_location {
                                assert(grid_mid.at(c) == grid_before.at(c));
                                match grid_before.at(c) {
                                    Some(i) => {
                                        assert(before[i as int] == c);
                                        assert(i != *musician);
                                    },
                                    None => {},
                                }
                            }
                        }
                    }
                    assert(grid.at(old_location) == grid_mid.at(old_location));
                }
                MusicianChange::Move { musician: *musician, location: old_location }
            },
        }
    }
}

/// The change that moves musician `musician_i` by `displacement`: a swap
/// with the musician who stands where that leads, or a move there if
/// nobody does.
pub open spec fn neighbor_of(
    grid: DiamondGrid<Option<usize>>,
    placements: Seq<GridCoord>,
    musician_i: usize,
    displacement: (isize, isize),
) -> MusicianChange {
    let new_location = grid.size.displaced(placements[musician_i as int], displacement);
    match grid.at(new_location) {
        Some(musician_b) => MusicianChange::Swap { musician_a: musician_i, musician_b },
        None => MusicianChange::Move { musician: musician_i, location: new_location },
    }
}

/// The change that moves musician `musician_i` by `displacement`.
pub fn neighbor_at(
    grid: &DiamondGrid<Option<usize>>,
    placements: &Vec<GridCoord>,
    musician_i: usize,
    displacement: (isize, isize),
) -> (change: MusicianChange)
    requires
        occupancy_consistent(placements@, *grid),
        musician_i < placements@.len(),
        grid.size.spec_width() > 1 && grid.size.spec_height() > 1 ==> (displacement.0
            - displacement.1) % 2 == 0,
    ensures
        change == neighbor_of(*grid, placements@, musician_i, displacement),
        change.applicable(placements@, *grid),
{
    let musician = &placements[musician_i];
    let new_location = grid.size.displace(musician, displacement);
    let existing_musician = grid.get(&new_location);
    if let Some(musician_b) = existing_musician {
        return MusicianChange::Swap { musician_a: musician_i, musician_b };
    }
    MusicianChange::Move { musician: musician_i, location: new_location }
}

/// A random change of the place of musician `musician_i`, who moves at
/// most `distance` steps along x.
pub fn neighbor(
    grid: &DiamondGrid<Option<usize>>,
    placements: &Vec<GridCoord>,
    musician_i: usize,
    distance: usize,
) -> (change: MusicianChange)
    requires
        occupancy_consistent(placements@, *grid),
        musician_i < placements@.len(),
        1 <= distance < isize::MAX,
    ensures
        change.applicable(placements@, *grid),
        is_neighbor(*grid, placements@, musician_i, distance, change),
{
    let musician = &placements[musician_i];
    let displacement = musician.random_displacement(distance);
    neighbor_at(grid, placements, musician_i, displacement)
}

/// `change` moves musician `musician_i` by some displacement of at most
/// `distance` steps along x, of as many or one more along y, and of both
/// even or both odd.
pub open spec fn is_neighbor(
    grid: DiamondGrid<Option<usize>>,
    placements: Seq<GridCoord>,
    musician_i: usize,
    distance: usize,
    change: MusicianChange,
) -> bool {
    exists|x: isize, y: isize|
        -distance <= x <= distance && x != 0 && -distance - 1 <= y <= distance + 1 && (x - y) % 2
            == 0 && change == #[trigger] neighbor_of(grid, placements, musician_i, (x, y))
}

/// The greatest number of steps along x that a step asked to go `distance`
/// far may move a musician: `distance` itself, but one at least, and less
/// than the greatest displacement there is.
pub open spec fn reach_of(distance: usize) -> usize {
    if distance < 1 {
        1
    } else if distance >= isize::MAX {
        (isize::MAX - 1) as usize
    } else {
        distance
    }
}

/// The greatest number of steps along x that a step asked to go `distance`
/// far may move a musician.
pub fn reach(distance: usize) -> (steps: usize)
    ensures
        steps == reach_of(distance),
        1 <= steps < isize::MAX,
{
    if distance < 1 {
        1
    } else if distance >= isize::MAX as usize {
        isize::MAX as usize - 1
    } else {
        distance
    }
}

/// Picks `amount` of the coordinates at random, or all of them if there
/// are fewer.
///
/// This calls `rand::seq::SliceRandom::partial_shuffle` with the generator
/// of the current thread. That method swaps elements of the slice in place
/// and hands out the part it has shuffled, which has `amount` elements or
/// the whole slice. Which elements those are is left open; the contract
/// says how many there are, and that each occurs in them at most as often
/// as in the list.
#[verifier::external_body]
pub(crate) fn shuffled_subset(coords: Vec<GridCoord>, amount: usize) -> (chosen: Vec<GridCoord>)
    ensures
        chosen@.len() == if amount <= coords@.len() {
            amount as int
        } else {
            coords@.len() as int
        },
        chosen@.to_multiset().subset_of(coords@.to_multiset()),
{
    let mut coords = coords;
    let (chosen, _) = coords.partial_shuffle(&mut rand::thread_rng(), amount);
    chosen.to_vec()
}

/// A list in which every element comes before the next has no element
/// twice.
pub proof fn lemma_ordered_no_duplicates(coords: Seq<GridCoord>)
    requires
        forall|i: int, j: int|
            0 <= i < j < coords.len() ==> coord_before(#[trigger] coords[i], #[trigger] coords[j]),
    ensures
        coords.no_duplicates(),
{
    assert forall|i: int, j: int|
        0 <= i < coords.len() && 0 <= j < coords.len() && i != j implies coords[i]
        != coords[j] by {
        if i < j {
            assert(coord_before(coords[i], coords[j]));
        } else {
            assert(coord_before(coords[j], coords[i]));
        }
    }
}

/// What is drawn from a list without duplicates has none, and holds
/// elements of the list only.
pub proof fn lemma_subset_of_distinct(chosen: Seq<GridCoord>, coords: Seq<GridCoord>)
    requires
        coords.no_duplicates(),
        chosen.to_multiset().subset_of(coords.to_multiset()),
    ensures
        chosen.no_duplicates(),
        forall|i: int| 0 <= i < chosen.len() ==> coords.contains(#[trigger] chosen[i]),
{
    broadcast use vstd::multiset::group_multiset_axioms;

    coords.lemma_multiset_has_no_duplicates();
    chosen.to_multiset_ensures();
    coords.to_multiset_ensures();
    assert forall|x: GridCoord| chosen.to_multiset().contains(x) implies chosen.to_multiset().count(
        x,
    ) == 1 by {
        assert(chosen.to_multiset().count(x) <= coords.to_multiset().count(x));
        assert(coords.to_multiset().contains(x));
    }
    chosen.lemma_multiset_has_no_duplicates_conv();
    assert forall|i: int| 0 <= i < chosen.len() implies coords.contains(#[trigger] chosen[i]) by {
        assert(chosen.contains(chosen[i]));
        assert(chosen.to_multiset().count(chosen[i]) > 0);
        assert(chosen.to_multiset().count(chosen[i]) <= coords.to_multiset().count(chosen[i]));
    }
}

/// The occupancy of a coordinate on which nobody stands.
pub fn vacant(coord: &GridCoord) -> (occupant: Option<usize>)
    ensures
        occupant.is_none(),
{
    None
}

/// Puts one more musician on a free coordinate of the lattice.
pub fn put_musician(
    placements: &mut Vec<GridCoord>,
    grid: &mut DiamondGrid<Option<usize>>,
    location: &GridCoord,
)
    requires
        occupancy_consistent(old(placements)@, *old(grid)),
        old(grid).size.contains(*location),
        old(grid).at(*location).is_none(),
        old(placements)@.len() < usize::MAX,
    ensures
        final(placements)@ == old(placements)@.push(*location),
        final(grid).size == old(grid).size,
        occupancy_consistent(final(placements)@, *final(grid)),
{
    let ghost before = placements@;
    let ghost grid_before = *grid;
    let musician = placements.len();
    placements.push(*location);
    grid.set(location, Some(musician));
    proof {
        assert forall|k: int| 0 <= k < placements@.len() implies grid.size.contains(
            #[trigger] placements@[k],
        ) && grid.at(placements@[k]) == Some(k as usize) by {
            if k < musician {
                assert(placements@[k] == before[k]);
                assert(grid_before.at(before[k]) == Some(k as usize));
                assert(grid.at(before[k]) == grid_before.at(before[k]));
            }
        }
        assert forall|c: GridCoord| grid.size.contains(c) implies match #[trigger] grid.at(c) {
            Some(k) => k < placements@.len() && placements@[k as int] == c,
            None => true,
        } by {
            if c != *location {
                assert(grid.at(c) == grid_before.at(c));
                match grid_before.at(c) {
                    Some(k) => {
                        assert(before[k as int] == c);
                    },
                    None => {},
                }
            }
        }
    }
}

/// Of the coordinates of the lattice that are not in `used`, `chosen` is
/// the one whose point is nearest to `target`, and of several that are
/// equally near the first.
pub open spec fn is_nearest_unused(
    transform: GridTransform,
    used: Seq<GridCoord>,
    target: Point2D,
    chosen: GridCoord,
) -> bool {
    &&& transform.size.contains(chosen)
    &&& !used.contains(chosen)
    &&& forall|c: GridCoord|
        #![trigger transform.size.contains(c)]
        transform.size.contains(c) && !used.contains(c) ==> dist2(
            transform.point(chosen),
            target,
        ) <= dist2(transform.point(c), target) && (coord_before(c, chosen) ==> dist2(
            transform.point(chosen),
            target,
        ) < dist2(transform.point(c), target))
}

/// `all` lists the coordinates of the lattice in order, each once.
pub open spec fn lists_lattice(size: GridSize, all: Seq<GridCoord>) -> bool {
    &&& forall|i: int| 0 <= i < all.len() ==> size.contains(#[trigger] all[i])
    &&& forall|c: GridCoord| size.contains(c) ==> #[trigger] all.contains(c)
    &&& forall|i: int, j: int|
        0 <= i < j < all.len() ==> coord_before(#[trigger] all[i], #[trigger] all[j])
}

/// The free coordinate of the lattice whose point is nearest to `target`,
/// and of several that are equally near the first; none if every
/// coordinate is taken.
pub fn nearest_free(
    grid: &DiamondGrid<Option<usize>>,
    transform: &GridTransform,
    all: &Vec<GridCoord>,
    target: &Point2D,
) -> (found: Option<GridCoord>)
    requires
        grid.wf(),
        transform.wf(),
        transform.size == grid.size,
        target.wf(),
        lists_lattice(grid.size, all@),
    ensures
        match found {
            Some(chosen) => {
                &&& grid.size.contains(chosen)
                &&& grid.at(chosen).is_none()
                &&& forall|c: GridCoord|
                    #![trigger grid.size.contains(c)]
                    grid.size.contains(c) && grid.at(c).is_none() ==> dist2(
                        transform.point(chosen),
                        *target,
                    ) <= dist2(transform.point(c), *target) && (coord_before(c, chosen) ==> dist2(
                        transform.point(chosen),
                        *target,
                    ) < dist2(transform.point(c), *target))
            },
            None => forall|c: GridCoord|
                #![trigger grid.size.contains(c)]
                grid.size.contains(c) ==> grid.at(c).is_some(),
        },
{
    let mut best: Option<(usize, u64)> = None;
    let mut k: usize = 0;
    while k < all.len()
        invariant
            k <= all@.len(),
            grid.wf(),
            transform.wf(),
            transform.size == grid.size,
            target.wf(),
            lists_lattice(grid.size, all@),
            match best {
                Some((at, distance)) => {
                    &&& at < k
                    &&& grid.at(all@[at as int]).is_none()
                    &&& distance == dist2(transform.point(all@[at as int]), *target)
                    &&& forall|j: int|
                        0 <= j < k && grid.at(#[trigger] all@[j]).is_none() ==> distance <= dist2(
                            transform.point(all@[j]),
                            *target,
                        ) && (j < at ==> distance < dist2(transform.point(all@[j]), *target))
                },
                None => forall|j: int| 0 <= j < k ==> grid.at(#[trigger] all@[j]).is_some(),
            },
        decreases all@.len() - k,
    {
        let coord = all[k];
        if grid.get(&coord).is_none() {
            proof {
                transform.lemma_point_within(coord);
            }
            let (x, y) = transform.apply(&coord);
            let distance = crate::geometry::distance2(&Point2D { x, y }, target);
            let nearer = match best {
                Some((_, least)) => distance < least,
                None => true,
            };
            if nearer {
                best = Some((k, distance));
            }
        }
        k += 1;
    }
    match best {
        Some((at, distance)) => {
            let chosen = all[at];
            proof {
                assert forall|c: GridCoord|
                    #![trigger grid.size.contains(c)]
                    grid.size.contains(c) && grid.at(c).is_none() implies dist2(
                    transform.point(chosen),
                    *target,
                ) <= dist2(transform.point(c), *target) && (coord_before(c, chosen) ==> dist2(
                    transform.point(chosen),
                    *target,
                ) < dist2(transform.point(c), *target)) by {
                    assert(all@.contains(c));
                    let j = choose|j: int| 0 <= j < all@.len() && all@[j] == c;
                    assert(grid.at(all@[j]).is_none());
                    if coord_before(c, chosen) {
                        if j > at {
                            assert(coord_before(all@[at as int], all@[j]));
                        }
                    }
                }
            }
            Some(chosen)
        },
        None => {
            proof {
                assert forall|c: GridCoord|
                    #![trigger grid.size.contains(c)]
                    grid.size.contains(c) implies grid.at(c).is_some() by {
                    assert(all@.contains(c));
                    let j = choose|j: int| 0 <= j < all@.len() && all@[j] == c;
                    assert(grid.at(all@[j]).is_some());
                }
            }
            None
        },
    }
}

/// As long as there are fewer musicians than coordinates, one of the
/// coordinates is free.
pub proof fn lemma_free_coordinate_exists(
    placements: Seq<GridCoord>,
    grid: DiamondGrid<Option<usize>>,
    all: Seq<GridCoord>,
)
    requires
        occupancy_consistent(placements, grid),
        lists_lattice(grid.size, all),
        placements.len() < all.len(),
    ensures
        exists|c: GridCoord| grid.size.contains(c) && (#[trigger] grid.at(c)).is_none(),
{
    broadcast use vstd::seq_lib::seq_to_set_is_finite;

    if forall|c: GridCoord| grid.size.contains(c) ==> (#[trigger] grid.at(c)).is_some() {
        lemma_ordered_no_duplicates(all);
        all.unique_seq_to_set();
        placements.lemma_cardinality_of_set();
        assert(all.to_set().subset_of(placements.to_set())) by {
            assert forall|c: GridCoord| all.to_set().contains(c) implies placements.to_set().contains(
                c,
            ) by {
                assert(all.contains(c));
                let k = choose|k: int| 0 <= k < all.len() && all[k] == c;
                assert(grid.size.contains(all[k]));
                assert(grid.at(c).is_some());
                let m = grid.at(c).unwrap();
                assert(placements[m as int] == c);
                assert(placements.contains(c));
            }
        }
        vstd::set_lib::lemma_len_subset(all.to_set(), placements.to_set());
    }
}

/// The points of the stage at which the musicians stand.
pub open spec fn serialized(
    transform: GridTransform,
    placements: Seq<GridCoord>,
) -> Seq<Option<Point2D>> {
    Seq::new(placements.len(), |i: int| Some(transform.point(placements[i])))
}

/// The loudest volume for each of `n` musicians.
pub open spec fn full_volumes(n: nat) -> Seq<u32> {
    Seq::new(n, |i: int| MAX_VOLUME)
}

/// The size of the lattice that is fitted into the stage of a problem: a
/// cell for every `2 * LATTICE_STEP` steps of the inner area, which keeps
/// any two lattice points at least ten units apart.
pub open spec fn lattice_size_for(stage_width: int, stage_height: int) -> GridSize {
    GridSize {
        cells_x: ((stage_width - 2 * STAGE_MARGIN) / (2 * LATTICE_STEP)) as usize,
        cellx_y: ((stage_height - 2 * STAGE_MARGIN) / (2 * LATTICE_STEP)) as usize,
    }
}

/// The least number of steps between two lattice lines of the same
/// family, halved: the least whole number whose square is at least twice
/// the square of the radius of a musician.
pub const LATTICE_STEP: i64 = 3_621;

/// The widest and highest stage on which a lattice is fitted, the widest
/// whose lattice has no more than `CELL_LIMIT` cells along a side: inside
/// the margins it is one step short of `CELL_LIMIT + 1` cells.
pub const STAGE_LIMIT: i64 = 237_316_095;

/// A change that was made and can still be undone, and the score with
/// it.
#[derive(Clone, Copy, Debug, PartialEq, Eq, Structural)]
pub struct PendingMove {
    pub undo: MusicianChange,
    pub score: Score,
}

/// Improves a placement on a lattice by random changes, of which it keeps
/// those that raise the score and some of the others.
#[derive(Clone, Debug, Default)]
pub struct Annealer {
    pub problem: Problem,
    pub grid_size: GridSize,
    pub grid_transform: GridTransform,
    pub grid: DiamondGrid<Option<usize>>,
    pub placements: Vec<GridCoord>,
    pub score: Score,
    pub max_steps: usize,
    pub step_i: usize,
    pub pending: Option<PendingMove>,
}

impl Annealer {
    /// The score of the given placement on the lattice at full volume.
    pub open spec fn score_at(&self, placements: Seq<GridCoord>) -> int {
        score_of(
            self.problem.data,
            serialized(self.grid_transform, placements),
            Some(full_volumes(placements.len())),
        )
    }

    /// The lattice lies in the inner area of the stage, and its cells are
    /// wide and high enough to keep any two lattice points at least two
    /// musician radii apart.
    pub open spec fn lattice_wf(&self) -> bool {
        let data = self.problem.data;
        &&& self.grid.size == self.grid_size
        &&& self.grid_transform.size == self.grid_size
        &&& self.grid_transform.wf()
        &&& self.grid_transform.x_min == data.stage_bottom_left.x + STAGE_MARGIN
        &&& self.grid_transform.y_min == data.stage_bottom_left.y + STAGE_MARGIN
        &&& self.grid_transform.x_max == data.stage_bottom_left.x + data.stage_width
            - STAGE_MARGIN
        &&& self.grid_transform.y_max == data.stage_bottom_left.y + data.stage_height
            - STAGE_MARGIN
        &&& self.grid_size.cells_x > 0 ==> self.grid_transform.cell_width >= LATTICE_STEP
        &&& self.grid_size.cellx_y > 0 ==> self.grid_transform.cell_height >= LATTICE_STEP
    }

    /// The state is that of a solver that was initialized: every musician
    /// stands on a lattice coordinate of their own, the occupancy of the
    /// lattice agrees with the placement, and the score is that of the
    /// placement. While a change waits for a decision, it can be undone, and
    /// the score is still that of the placement before the change.
    pub open spec fn wf(&self) -> bool {
        let data = self.problem.data;
        &&& data.wf()
        &&& data.musicians@.len() >= 1
        &&& self.placements@.len() == data.musicians@.len()
        &&& self.lattice_wf()
        &&& occupancy_consistent(self.placements@, self.grid)
        &&& self.max_steps == STEPS_PER_MUSICIAN * data.musicians@.len()
        &&& -TOTAL_LIMIT <= self.score.0 <= TOTAL_LIMIT
        &&& match self.pending {
            None => self.score.0 == self.score_at(self.placements@),
            Some(pending) => {
                &&& pending.undo.applicable(self.placements@, self.grid)
                &&& pending.score.0 == self.score_at(self.placements@)
                &&& -TOTAL_LIMIT <= pending.score.0 <= TOTAL_LIMIT
                &&& self.score.0 == self.score_at(pending.undo.applied(self.placements@))
            },
        }
    }

    /// Any two musicians stand at least the least distance apart, and all
    /// within the inner area of the stage.
    pub proof fn lemma_placement_valid(&self, i: int, j: int)
        requires
            self.wf(),
            0 <= i < self.placements@.len(),
            0 <= j < self.placements@.len(),
            i != j,
        ensures
            dist2(
                self.grid_transform.point(self.placements@[i]),
                self.grid_transform.point(self.placements@[j]),
            ) >= SEPARATION_SQ,
            self.problem.data.stage_bottom_left.x + STAGE_MARGIN <= self.grid_transform.point(
                self.placements@[i],
            ).x <= self.problem.data.stage_bottom_left.x + self.problem.data.stage_width
                - STAGE_MARGIN,
            self.problem.data.stage_bottom_left.y + STAGE_MARGIN <= self.grid_transform.point(
                self.placements@[i],
            ).y <= self.problem.data.stage_bottom_left.y + self.problem.data.stage_height
                - STAGE_MARGIN,
    {
        lemma_no_shared_coordinate(self.placements@, self.grid, i, j);
        lemma_lattice_separation(
            self.grid_transform,
            self.placements@[i],
            self.placements@[j],
            LATTICE_STEP as int,
        );
        self.grid_transform.lemma_point_within(self.placements@[i]);
    }

    /// The name of the solver.
    pub fn name(&self) -> (name: String)
        ensures
            name@ == "annealer"@,
    {
        "annealer".to_string()
    }

    /// The placement as points of the stage, with every musician at full
    /// volume.
    pub fn serialize(&self) -> (solution: SolutionDto)
        requires
            self.lattice_wf(),
            occupancy_consistent(self.placements@, self.grid),
        ensures
            solution.placements@ == serialized(self.grid_transform, self.placements@),
            solution.volumes.is_some(),
            solution.volumes.unwrap()@ == full_volumes(self.placements@.len()),
            placements_wf(solution.placements@),
    {
        let mut res: Vec<Option<Point2D>> = Vec::new();
        let mut volumes: Vec<u32> = Vec::new();
        let mut i: usize = 0;
        while i < self.placements.len()
            invariant
                i <= self.placements@.len(),
                self.lattice_wf(),
                occupancy_consistent(self.placements@, self.grid),
                res@.len() == i,
                volumes@.len() == i,
                forall|k: int|
                    0 <= k < i ==> #[trigger] res@[k] == Some(
                        self.grid_transform.point(self.placements@[k]),
                    ),
                forall|k: int| 0 <= k < i ==> #[trigger] volumes@[k] == MAX_VOLUME,
                placements_wf(res@),
            decreases self.placements@.len() - i,
        {
            let coord = &self.placements[i];
            proof {
                self.grid_transform.lemma_point_within(*coord);
            }
            let (x, y) = self.grid_transform.apply(coord);
            res.push(Some(Point2D { x, y }));
            volumes.push(MAX_VOLUME);
            i += 1;
        }
        assert(res@ =~= serialized(self.grid_transform, self.placements@));
        assert(volumes@ =~= full_volumes(self.placements@.len()));
        SolutionDto { placements: res, volumes: Some(volumes) }
    }

    /// The score of a placement for the problem of this solver.
    pub fn compute_score(&self, solution: &SolutionDto) -> (total: Score)
        requires
            self.problem.data.wf(),
            solution.placements@.len() == self.problem.data.musicians@.len(),
            placements_wf(solution.placements@),
            match solution.volumes {
                Some(v) => v@.len() == solution.placements@.len(),
                None => true,
            },
        ensures
            total.0 == score_of(
                self.problem.data,
                solution.placements@,
                match solution.volumes {
                    Some(v) => Some(v@),
                    None => None,
                },
            ),
            -TOTAL_LIMIT <= total.0 <= TOTAL_LIMIT,
    {
        self.problem.score(&solution.placements, solution.volumes.as_ref())
    }

    /// Starts on a problem: fits the lattice into the inner area of the
    /// stage, puts the musicians on it, and scores the placement. Without a
    /// placement to start from, the musicians get coordinates drawn at
    /// random. With one, each in turn gets the free coordinate whose point
    /// is nearest to the place given for them, and of several equally near
    /// the first. Returns `false`, and leaves the solver as it was, if the
    /// lattice has fewer coordinates than there are musicians.
    pub fn initialize(&mut self, problem: Problem, solution: SolutionDto) -> (ready: bool)
        requires
            problem.data.wf(),
            problem.data.musicians@.len() >= 1,
            2 * STAGE_MARGIN <= problem.data.stage_width <= STAGE_LIMIT,
            2 * STAGE_MARGIN <= problem.data.stage_height <= STAGE_LIMIT,
            solution.placements@.len() == 0 || solution.placements@.len()
                == problem.data.musicians@.len(),
            forall|i: int|
                0 <= i < solution.placements@.len() ==> (
                #[trigger] solution.placements@[i]).is_some()
                    && solution.placements@[i].unwrap().wf(),
        ensures
            ready == (lattice_size_for(
                problem.data.stage_width as int,
                problem.data.stage_height as int,
            ).count() >= problem.data.musicians@.len()),
            ready ==> final(self).wf() && occupancy_consistent(
                final(self).placements@,
                final(self).grid,
            ) && final(self).problem == problem && final(self).pending.is_none()
                && final(self).step_i == 0
                && final(self).grid_size == lattice_size_for(
                problem.data.stage_width as int,
                problem.data.stage_height as int,
            ),
            ready ==> forall|i: int|
                0 <= i < solution.placements@.len() ==> is_nearest_unused(
                    final(self).grid_transform,
                    final(self).placements@.take(i),
                    (#[trigger] solution.placements@[i]).unwrap(),
                    final(self).placements@[i],
                ),
            !ready ==> *final(self) == *old(self),
    {
        let musician_count = problem.data.musicians.len();
        let stage_width = problem.data.stage_width;
        let stage_height = problem.data.stage_height;
        let padding: i64 = MUSICIAN_RADIUS;
        let corner = problem.data.stage_bottom_left;
        let width = stage_width - padding * 2;
        let height = stage_height - padding * 2;
        proof {
            assert(is_lattice_step(MUSICIAN_RADIUS as int, LATTICE_STEP as int));
            lemma_lattice_step_is(MUSICIAN_RADIUS as int, LATTICE_STEP as int);
            let inner_width = stage_width - 2 * STAGE_MARGIN;
            let inner_height = stage_height - 2 * STAGE_MARGIN;
            assert(2 * LATTICE_STEP == 7242);
            assert(circle_cells(width as int, MUSICIAN_RADIUS as int) == inner_width / 7242);
            assert(circle_cells(height as int, MUSICIAN_RADIUS as int) == inner_height / 7242);
            assert(inner_width / 7242 <= CELL_LIMIT);
            assert(inner_height / 7242 <= CELL_LIMIT);
        }
        let (grid_size, grid_transform) = fit_circles_grid(
            (corner.x + padding, corner.y + padding),
            width,
            height,
            MUSICIAN_RADIUS,
        );
        assert(grid_size == lattice_size_for(stage_width as int, stage_height as int));
        let mut grid: DiamondGrid<Option<usize>> = DiamondGrid::new(grid_size, vacant);
        let all = grid_size.all_grid_coordinates();
        if all.len() < musician_count {
            return false;
        }
        let mut placements: Vec<GridCoord> = Vec::new();
        if solution.placements.len() == 0 {
            // figure out an initial placement for musicians
            let ghost all_coords = all@;
            let random_placement = shuffled_subset(all, musician_count);
            proof {
                lemma_ordered_no_duplicates(all_coords);
                lemma_subset_of_distinct(random_placement@, all_coords);
            }
            let mut i: usize = 0;
            while i < random_placement.len()
                invariant
                    i <= random_placement@.len(),
                    random_placement@.len() == musician_count,
                    random_placement@.no_duplicates(),
                    forall|k: int|
                        0 <= k < random_placement@.len() ==> grid_size.contains(
                            #[trigger] random_placement@[k],
                        ),
                    grid.size == grid_size,
                    placements@ == random_placement@.take(i as int),
                    occupancy_consistent(placements@, grid),
                decreases random_placement@.len() - i,
            {
                let placement = random_placement[i];
                proof {
                    match grid.at(placement) {
                        Some(k) => {
                            assert(placements@[k as int] == placement);
                            assert(random_placement@[k as int] == random_placement@[i as int]);
                        },
                        None => {},
                    }
                }
                put_musician(&mut placements, &mut grid, &placement);
                assert(placements@ =~= random_placement@.take(i + 1));
                i += 1;
            }
        } else {
            let mut i: usize = 0;
            while i < musician_count
                invariant
                    i <= musician_count,
                    musician_count <= all@.len(),
                    solution.placements@.len() == musician_count,
                    forall|k: int|
                        0 <= k < solution.placements@.len() ==> (
                        #[trigger] solution.placements@[k]).is_some()
                            && solution.placements@[k].unwrap().wf(),
                    lists_lattice(grid_size, all@),
                    grid_transform.wf(),
                    grid_transform.size == grid_size,
                    grid.size == grid_size,
                    placements@.len() == i,
                    occupancy_consistent(placements@, grid),
                    forall|k: int|
                        0 <= k < i ==> is_nearest_unused(
                            grid_transform,
                            placements@.take(k),
                            (#[trigger] solution.placements@[k]).unwrap(),
                            placements@[k],
                        ),
                decreases musician_count - i,
            {
                let target = match solution.placements[i] {
                    Some(target) => target,
                    None => Point2D { x: 0, y: 0 },
                };
                let ghost before = placements@;
                let found = nearest_free(&grid, &grid_transform, &all, &target);
                let location = match found {
                    Some(location) => location,
                    None => {
                        proof {
                            lemma_free_coordinate_exists(placements@, grid, all@);
                        }
                        return false;
                    },
                };
                proof {
                    assert(is_nearest_unused(grid_transform, before, target, location)) by {
                        if before.contains(location) {
                            let m = choose|m: int| 0 <= m < before.len() && before[m] == location;
                            assert(grid.at(before[m]) == Some(m as usize));
                        }
                        assert forall|c: GridCoord|
                            #![trigger grid_transform.size.contains(c)]
                            grid_transform.size.contains(c) && !before.contains(c) implies dist2(
                            grid_transform.point(location),
                            target,
                        ) <= dist2(grid_transform.point(c), target) && (coord_before(c, location)
                            ==> dist2(grid_transform.point(location), target) < dist2(
                            grid_transform.point(c),
                            target,
                        )) by {
                            match grid.at(c) {
                                Some(m) => {
                                    assert(before[m as int] == c);
                                },
                                None => {},
                            }
                        }
                    }
                }
                put_musician(&mut placements, &mut grid, &location);
                proof {
                    assert(placements@.take(i as int) =~= before);
                    assert forall|k: int| 0 <= k < i + 1 implies is_nearest_unused(
                        grid_transform,
                        placements@.take(k),
                        (#[trigger] solution.placements@[k]).unwrap(),
                        placements@[k],
                    ) by {
                        if k < i {
                            assert(placements@.take(k) =~= before.take(k));
                            assert(placements@[k] == before[k]);
                        }
                    }
                }
                i += 1;
            }
        }
        self.problem = problem;
        self.grid_size = grid_size;
        self.grid_transform = grid_transform;
        self.grid = grid;
        self.placements = placements;
        self.pending = None;
        let serialized = self.serialize();
        self.score = self.compute_score(&serialized);
        self.max_steps = musician_count * STEPS_PER_MUSICIAN;
        self.step_i = 0;
        true
    }

    /// Makes a change of the placement and scores the changed placement.
    /// Returns by how much the score has risen. The change waits for
    /// `finish_step`, which keeps it or undoes it.
    pub fn try_change(&mut self, change: MusicianChange) -> (score_delta: i128)
        requires
            old(self).wf(),
            old(self).pending.is_none(),
            change.applicable(old(self).placements@, old(self).grid),
        ensures
            final(self).wf(),
            final(self).problem == old(self).problem,
            final(self).grid_size == old(self).grid_size,
            final(self).grid_transform == old(self).grid_transform,
            final(self).score == old(self).score,
            final(self).step_i == old(self).step_i,
            final(self).max_steps == old(self).max_steps,
            final(self).placements@ == change.applied(old(self).placements@),
            final(self).pending == Some(
                PendingMove {
                    undo: change.reverse(old(self).placements@),
                    score: Score(final(self).score_at(final(self).placements@) as i128),
                },
            ),
            final(self).pending.unwrap().undo.applied(final(self).placements@) == old(self).placements@,
            score_delta == final(self).score_at(final(self).placements@) - old(self).score.0,
    {
        let ghost before = self.placements@;
        let reverse_change = change.apply(&mut self.placements, &mut self.grid);
        proof {
            change.lemma_reverse_restores(before);
        }
        let new_solution = self.serialize();
        let new_score = self.compute_score(&new_solution);
        let score_delta = new_score.0 - self.score.0;
        self.pending = Some(PendingMove { undo: reverse_change, score: new_score });
        score_delta
    }

    /// Makes a random change of the place of a musician drawn at random,
    /// who moves at most `distance` steps along x, and scores the changed
    /// placement. Returns by how much the score has risen. The change waits
    /// for `finish_step`, which keeps it or undoes it.
    pub fn begin_step(&mut self, distance: usize) -> (score_delta: i128)
        requires
            old(self).wf(),
            old(self).pending.is_none(),
        ensures
            final(self).wf(),
            final(self).problem == old(self).problem,
            final(self).grid_size == old(self).grid_size,
            final(self).grid_transform == old(self).grid_transform,
            final(self).score == old(self).score,
            final(self).step_i == old(self).step_i,
            final(self).max_steps == old(self).max_steps,
            final(self).pending.is_some(),
            final(self).pending.unwrap().undo.applied(final(self).placements@) == old(self).placements@,
            exists|musician_i: usize, change: MusicianChange|
                musician_i < old(self).placements@.len() && #[trigger] is_neighbor(
                    old(self).grid,
                    old(self).placements@,
                    musician_i,
                    reach_of(distance),
                    change,
                ) && final(self).placements@ == change.applied(old(self).placements@),
            score_delta == final(self).pending.unwrap().score.0 - old(self).score.0,
    {
        let musician_i = random_between(0, self.placements.len() - 1);
        let reach = reach(distance);
        let neighbor = neighbor(&self.grid, &self.placements, musician_i, reach);
        self.try_change(neighbor)
    }

    /// The change that waits is kept: it has raised the score, or the
    /// loss is taken.
    pub open spec fn keeps_change(&self, take_the_loss: bool) -> bool {
        self.pending.unwrap().score.0 > self.score.0 || take_the_loss
    }

    /// Decides on the change that waits: it is kept if it has raised the
    /// score or if `take_the_loss` says so, and undone otherwise. Returns
    /// the placement, and whether the search is over: the step budget is
    /// used up, or more than `TIME_LIMIT_SECS` seconds have gone by since
    /// the search began, of which `elapsed_secs` tells.
    pub fn finish_step(&mut self, take_the_loss: bool, elapsed_secs: u64) -> (step: (
        SolutionDto,
        bool,
    ))
        requires
            old(self).wf(),
            old(self).pending.is_some(),
            old(self).step_i < usize::MAX,
        ensures
            final(self).wf(),
            final(self).problem == old(self).problem,
            final(self).grid_size == old(self).grid_size,
            final(self).grid_transform == old(self).grid_transform,
            final(self).max_steps == old(self).max_steps,
            final(self).pending.is_none(),
            final(self).step_i == old(self).step_i + 1,
            old(self).keeps_change(take_the_loss) ==> final(self).placements@
                == old(self).placements@,
            old(self).keeps_change(take_the_loss) ==> final(self).score
                == old(self).pending.unwrap().score,
            !old(self).keeps_change(take_the_loss) ==> final(self).placements@
                == old(self).pending.unwrap().undo.applied(old(self).placements@),
            !old(self).keeps_change(take_the_loss) ==> final(self).score == old(self).score,
            step.0.placements@ == serialized(final(self).grid_transform, final(self).placements@),
            step.0.volumes.is_some(),
            step.0.volumes.unwrap()@ == full_volumes(final(self).placements@.len()),
            step.0.placements@.len() == final(self).problem.data.musicians@.len(),
            step.1 == (final(self).step_i >= final(self).max_steps || elapsed_secs
                > TIME_LIMIT_SECS),
    {
        let pending = match self.pending {
            Some(pending) => pending,
            None => {
                assert(false);
                PendingMove {
                    undo: MusicianChange::Swap { musician_a: 0, musician_b: 0 },
                    score: self.score,
                }
            },
        };
        let score_delta = pending.score.0 - self.score.0;
        if score_delta > 0 || take_the_loss {
            self.score = pending.score;
        } else {
            pending.undo.apply(&mut self.placements, &mut self.grid);
        }
        self.pending = None;
        self.step_i += 1;
        let done_steps = self.step_i >= self.max_steps;
        let timeout = elapsed_secs > TIME_LIMIT_SECS;
        (self.serialize(), done_steps || timeout)
    }

    /// A change that alters the score by `score_delta` is kept when the
    /// loss that is tolerated is `tolerated_loss`: it raises the score, or
    /// lowers it by less than is tolerated.
    pub open spec fn tolerates(score_delta: int, tolerated_loss: int) -> bool {
        score_delta > 0 || -score_delta < tolerated_loss
    }

    /// One step of the search: a musician drawn at random moves by a
    /// random displacement of at most `distance` steps of the lattice along
    /// x, onto a free coordinate or in exchange with the musician there;
    /// the placement is scored anew in full; and the change is kept if it
    /// raises the score or lowers it by less than `tolerated_loss`, and
    /// undone otherwise. Returns the placement, and whether the search is
    /// over: the step budget is used up, or more than `TIME_LIMIT_SECS`
    /// seconds have gone by since the search began, of which `elapsed_secs`
    /// tells.
    ///
    /// The caller cools the search down by what it hands in: a shorter
    /// distance, and a tolerated loss drawn such that the chance to keep a
    /// loss falls with the loss and with the temperature. A tolerated loss
    /// of zero keeps no loss.
    pub fn solve_step(&mut self, distance: usize, tolerated_loss: i128, elapsed_secs: u64) -> (step:
        (SolutionDto, bool))
        requires
            old(self).wf(),
            old(self).pending.is_none(),
            old(self).step_i < usize::MAX,
        ensures
            final(self).wf(),
            final(self).problem == old(self).problem,
            final(self).grid_size == old(self).grid_size,
            final(self).grid_transform == old(self).grid_transform,
            final(self).max_steps == old(self).max_steps,
            final(self).pending.is_none(),
            final(self).step_i == old(self).step_i + 1,
            occupancy_consistent(final(self).placements@, final(self).grid),
            final(self).score.0 == final(self).score_at(final(self).placements@),
            exists|musician_i: usize, change: MusicianChange|
                musician_i < old(self).placements@.len() && #[trigger] is_neighbor(
                    old(self).grid,
                    old(self).placements@,
                    musician_i,
                    reach_of(distance),
                    change,
                ) && final(self).placements@ == (if Self::tolerates(
                    old(self).score_at(change.applied(old(self).placements@)) - old(self).score.0,
                    tolerated_loss as int,
                ) {
                    change.applied(old(self).placements@)
                } else {
                    old(self).placements@
                }),
            step.0.placements@ == serialized(final(self).grid_transform, final(self).placements@),
            step.0.placements@.len() == final(self).problem.data.musicians@.len(),
            step.0.volumes.is_some(),
            step.0.volumes.unwrap()@ == full_volumes(final(self).placements@.len()),
            step.1 == (final(self).step_i >= final(self).max_steps || elapsed_secs
                > TIME_LIMIT_SECS),
    {
        let score_delta = self.begin_step(distance);
        let take_the_loss = score_delta <= 0 && 0 - score_delta < tolerated_loss;
        self.finish_step(take_the_loss, elapsed_secs)
    }
}

} // verus!
