//! The data of a problem and of its solutions.
//!
//! All numbers are whole, so that every score is exact. Coordinates,
//! lengths and radii are counted in steps of which `UNIT` make one unit of
//! length, tastes in thousandths, volumes and closeness factors in
//! millionths.

use vstd::prelude::*;

verus! {

/// The number of steps in one unit of length: a coordinate of `UNIT` is
/// one unit from the origin.
pub const UNIT: i64 = 512;

/// The number by which a taste is multiplied: a taste of one is written
/// as `TASTE_UNIT`.
pub const TASTE_UNIT: i64 = 1_000;

/// Largest magnitude a coordinate, a length or a radius may have, in
/// steps.
///
/// With every coordinate in `[-COORD_LIMIT, COORD_LIMIT]` all products
/// formed by the geometric predicates fit in 128-bit integers.
pub const COORD_LIMIT: i64 = 1_073_741_824;

/// Largest magnitude of a taste, in thousandths.
pub const TASTE_LIMIT: i64 = 1_000_000_000;

/// Largest number of musicians in a problem. An inner area of the stage
/// that is one unit wide and high holds four candidate positions for each
/// of so many.
pub const MUSICIAN_LIMIT: usize = 65_536;

/// Largest number of attendees in a problem.
pub const ATTENDEE_LIMIT: usize = 8_388_608;

/// Largest number of pillars in a problem.
pub const PILLAR_LIMIT: usize = 1_073_741_824;

/// A point of the plane, with its coordinates in steps.
#[derive(Clone, Copy, Debug, PartialEq, Eq, Structural, Hash, Default)]
pub struct Point2D {
    pub x: i64,
    pub y: i64,
}

impl Point2D {
    /// Both coordinates are within the supported range.
    pub open spec fn wf(&self) -> bool {
        &&& -COORD_LIMIT <= self.x <= COORD_LIMIT
        &&& -COORD_LIMIT <= self.y <= COORD_LIMIT
    }

    /// Tells whether both coordinates are within the supported range.
    pub fn is_valid(&self) -> (ok: bool)
        ensures
            ok == self.wf(),
    {
        -COORD_LIMIT <= self.x && self.x <= COORD_LIMIT && -COORD_LIMIT <= self.y && self.y
            <= COORD_LIMIT
    }
}

/// The kind of instrument a musician plays; it selects the entry of an
/// attendee's taste vector.
#[derive(Clone, Copy, Debug, PartialEq, Eq, Structural, Hash, Default, PartialOrd, Ord)]
pub struct Instrument(pub u32);

/// An observer with one taste per instrument.
#[derive(Clone, Debug)]
pub struct Attendee {
    pub x: i64,
    pub y: i64,
    pub tastes: Vec<i64>,
}

impl Attendee {
    /// Where the attendee stands.
    pub open spec fn position(&self) -> Point2D {
        Point2D { x: self.x, y: self.y }
    }

    /// The position and every taste are within the supported ranges.
    pub open spec fn wf(&self) -> bool {
        &&& self.position().wf()
        &&& forall|k: int|
            0 <= k < self.tastes@.len() ==> -TASTE_LIMIT <= #[trigger] self.tastes@[k]
                <= TASTE_LIMIT
    }

    /// Where the attendee stands.
    pub fn as_vec(&self) -> (p: Point2D)
        ensures
            p == self.position(),
    {
        Point2D { x: self.x, y: self.y }
    }

    /// Tells whether the position and every taste are within the supported
    /// ranges.
    pub fn is_valid(&self) -> (ok: bool)
        ensures
            ok == self.wf(),
    {
        if !self.as_vec().is_valid() {
            return false;
        }
        let mut k: usize = 0;
        while k < self.tastes.len()
            invariant
                k <= self.tastes@.len(),
                forall|j: int|
                    0 <= j < k ==> -TASTE_LIMIT <= #[trigger] self.tastes@[j] <= TASTE_LIMIT,
            decreases self.tastes@.len() - k,
        {
            if self.tastes[k] < -TASTE_LIMIT || self.tastes[k] > TASTE_LIMIT {
                return false;
            }
            k += 1;
        }
        true
    }
}

/// A fixed circular obstacle.
#[derive(Clone, Copy, Debug, PartialEq, Eq, Structural, Hash)]
pub struct PillarDto {
    pub center: Point2D,
    pub radius: i64,
}

impl PillarDto {
    /// The centre of the pillar.
    pub open spec fn position(&self) -> Point2D {
        self.center
    }

    /// The centre is within the supported range and the radius is neither
    /// negative nor above it.
    pub open spec fn wf(&self) -> bool {
        &&& self.position().wf()
        &&& 0 <= self.radius <= COORD_LIMIT
    }

    /// The centre of the pillar.
    pub fn as_vec(&self) -> (p: Point2D)
        ensures
            p == self.position(),
    {
        self.center
    }

    /// Tells whether centre and radius are within the supported ranges.
    pub fn is_valid(&self) -> (ok: bool)
        ensures
            ok == self.wf(),
    {
        self.as_vec().is_valid() && 0 <= self.radius && self.radius <= COORD_LIMIT
    }
}

/// A stage in a room, the musicians to place on it, and those who listen.
#[derive(Clone, Debug, Default)]
pub struct ProblemDto {
    pub room_width: i64,
    pub room_height: i64,
    pub stage_width: i64,
    pub stage_height: i64,
    pub stage_bottom_left: Point2D,
    pub musicians: Vec<Instrument>,
    pub attendees: Vec<Attendee>,
    pub pillars: Vec<PillarDto>,
}

/// Every attendee in `attendees` has a taste for instrument `instrument`.
pub open spec fn tastes_cover(attendees: Seq<Attendee>, instrument: Instrument) -> bool {
    forall|a: int|
        0 <= a < attendees.len() ==> (instrument.0 as int) < (#[trigger] attendees[a]).tastes@.len()
}

/// Every attendee in `attendees` is within the supported ranges.
pub open spec fn attendees_wf(attendees: Seq<Attendee>) -> bool {
    forall|a: int| 0 <= a < attendees.len() ==> (#[trigger] attendees[a]).wf()
}

impl ProblemDto {
    /// The lower left corner of the stage.
    pub open spec fn stage_corner(&self) -> Point2D {
        self.stage_bottom_left
    }

    /// What is left of the stage inside the margins of ten units, if it
    /// has an area, holds four points for every musician when the points
    /// are one step apart. A stage without that room is too small for its
    /// musicians anyway, who stand ten units apart.
    pub open spec fn has_room(&self) -> bool {
        self.stage_width > 20 * UNIT && self.stage_height > 20 * UNIT ==> (self.stage_width - 20
            * UNIT + 1) * (self.stage_height - 20 * UNIT + 1) >= 4 * self.musicians@.len()
    }

    /// The stage lies within the supported coordinates and has room for
    /// its musicians.
    pub open spec fn stage_wf(&self) -> bool {
        &&& self.stage_corner().wf()
        &&& 0 <= self.stage_width
        &&& 0 <= self.stage_height
        &&& self.stage_bottom_left.x + self.stage_width <= COORD_LIMIT
        &&& self.stage_bottom_left.y + self.stage_height <= COORD_LIMIT
        &&& self.has_room()
    }

    /// A stage that leaves at least a unit inside the margins, along both
    /// sides, has room for as many musicians as are supported.
    pub proof fn lemma_unit_has_room(&self)
        requires
            self.stage_width >= 21 * UNIT,
            self.stage_height >= 21 * UNIT,
            self.musicians@.len() <= MUSICIAN_LIMIT,
        ensures
            self.has_room(),
    {
        let w = self.stage_width - 20 * UNIT + 1;
        let h = self.stage_height - 20 * UNIT + 1;
        assert(w * h >= 263_169) by (nonlinear_arith)
            requires
                w >= 513,
                h >= 513,
        ;
    }

    /// The problem is within the supported ranges, and every attendee has a
    /// taste for the instrument of every musician.
    pub open spec fn wf(&self) -> bool {
        &&& self.stage_wf()
        &&& self.musicians@.len() <= MUSICIAN_LIMIT
        &&& self.attendees@.len() <= ATTENDEE_LIMIT
        &&& self.pillars@.len() <= PILLAR_LIMIT
        &&& attendees_wf(self.attendees@)
        &&& forall|m: int|
            0 <= m < self.musicians@.len() ==> tastes_cover(
                self.attendees@,
                #[trigger] self.musicians@[m],
            )
        &&& forall|k: int| 0 <= k < self.pillars@.len() ==> (#[trigger] self.pillars@[k]).wf()
    }
}

impl ProblemDto {
    /// Tells whether the problem is within the supported ranges and every
    /// attendee has a taste for the instrument of every musician.
    pub fn is_valid(&self) -> (ok: bool)
        ensures
            ok == self.wf(),
    {
        if !(self.stage_bottom_left.is_valid() && 0 <= self.stage_width && 0 <= self.stage_height
            && self.stage_bottom_left.x as i128 + self.stage_width as i128 <= COORD_LIMIT as i128
            && self.stage_bottom_left.y as i128 + self.stage_height as i128
            <= COORD_LIMIT as i128) {
            return false;
        }
        if self.stage_width > 20 * UNIT && self.stage_height > 20 * UNIT {
            let inner_width: i128 = (self.stage_width - 20 * UNIT + 1) as i128;
            let inner_height: i128 = (self.stage_height - 20 * UNIT + 1) as i128;
            assert(0 <= inner_width * inner_height <= 4_611_686_018_427_387_904)
                by (nonlinear_arith)
                requires
                    0 <= inner_width <= 2_147_483_648,
                    0 <= inner_height <= 2_147_483_648,
            ;
            if inner_width * inner_height < 4 * (self.musicians.len() as i128) {
                return false;
            }
        }
        if self.musicians.len() > MUSICIAN_LIMIT || self.attendees.len() > ATTENDEE_LIMIT
            || self.pillars.len() > PILLAR_LIMIT {
            return false;
        }
        let mut instruments: u64 = 0;
        let mut m: usize = 0;
        while m < self.musicians.len()
            invariant
                m <= self.musicians@.len(),
                forall|j: int| 0 <= j < m ==> (#[trigger] self.musicians@[j]).0 < instruments,
                instruments <= u32::MAX + 1,
                m > 0 ==> exists|j: int|
                    0 <= j < m && (#[trigger] self.musicians@[j]).0 + 1 == instruments,
                m == 0 ==> instruments == 0,
            decreases self.musicians@.len() - m,
        {
            let ghost witness = if m > 0 {
                choose|j: int| 0 <= j < m && (#[trigger] self.musicians@[j]).0 + 1 == instruments
            } else {
                0
            };
            if self.musicians[m].0 as u64 >= instruments {
                instruments = self.musicians[m].0 as u64 + 1;
                assert(self.musicians@[m as int].0 + 1 == instruments);
            } else {
                assert(self.musicians@[witness].0 + 1 == instruments);
            }
            m += 1;
        }
        let mut a: usize = 0;
        while a < self.attendees.len()
            invariant
                a <= self.attendees@.len(),
                forall|j: int|
                    0 <= j < self.musicians@.len() ==> (#[trigger] self.musicians@[j]).0
                        < instruments,
                self.musicians@.len() > 0 ==> exists|j: int|
                    0 <= j < self.musicians@.len() && (#[trigger] self.musicians@[j]).0 + 1
                        == instruments,
                self.musicians@.len() == 0 ==> instruments == 0,
                instruments <= u32::MAX + 1,
                forall|j: int|
                    0 <= j < a ==> (#[trigger] self.attendees@[j]).wf()
                        && self.attendees@[j].tastes@.len() >= instruments,
            decreases self.attendees@.len() - a,
        {
            if !self.attendees[a].is_valid() || (self.attendees[a].tastes.len() as u64)
                < instruments {
                proof {
                    if self.attendees@[a as int].wf() {
                        let j = choose|j: int|
                            0 <= j < self.musicians@.len() && (#[trigger] self.musicians@[j]).0 + 1
                                == instruments;
                        assert(!((self.musicians@[j].0 as int)
                            < self.attendees@[a as int].tastes@.len()));
                        assert(!tastes_cover(self.attendees@, self.musicians@[j]));
                    }
                }
                return false;
            }
            a += 1;
        }
        let mut k: usize = 0;
        while k < self.pillars.len()
            invariant
                k <= self.pillars@.len(),
                forall|j: int| 0 <= j < k ==> (#[trigger] self.pillars@[j]).wf(),
            decreases self.pillars@.len() - k,
        {
            if !self.pillars[k].is_valid() {
                return false;
            }
            k += 1;
        }
        proof {
            assert forall|m: int| 0 <= m < self.musicians@.len() implies tastes_cover(
                self.attendees@,
                #[trigger] self.musicians@[m],
            ) by {
                assert forall|a: int| 0 <= a < self.attendees@.len() implies (
                self.musicians@[m].0 as int) < (#[trigger] self.attendees@[a]).tastes@.len() by {}
            }
        }
        true
    }
}

/// A position for each musician, `None` where a musician is not placed
/// yet, and optionally a volume for each, in millionths.
#[derive(Clone, Debug, Default)]
pub struct SolutionDto {
    pub placements: Vec<Option<Point2D>>,
    pub volumes: Option<Vec<u32>>,
}

/// Who solved a problem, and how well.
#[derive(Clone, Debug)]
pub struct SolutionMetaDto {
    pub solver_name: String,
    pub score: i64,
}

impl SolutionMetaDto {
    /// The record of a problem that nobody has solved.
    pub fn not_solved() -> (meta: Self)
        ensures
            meta.solver_name@ == "err_not_solved"@,
            meta.score == 0,
    {
        SolutionMetaDto { solver_name: "err_not_solved".to_string(), score: 0 }
    }
}

} // verus!
