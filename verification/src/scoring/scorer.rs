//! The score of a placement: what every attendee awards every musician
//! in sight.

use vstd::prelude::*;

use crate::dto::{
    tastes_cover, Attendee, Instrument, PillarDto, Point2D, ProblemDto, ATTENDEE_LIMIT,
    MUSICIAN_LIMIT, TASTE_LIMIT, TASTE_UNIT, UNIT,
};
use crate::geometry::{
    dist2, distance2, lemma_dist2_symmetric, lemma_product_bound, line_circle_intersection,
    segment_hits_disk,
};
use crate::solvers::Score;

verus! {

/// What a taste of one at a distance of one unit is worth.
pub const IMPACT_SCALE: i64 = 1_000_000;

/// Largest magnitude of an impact:
/// `IMPACT_SCALE * UNIT^2 * TASTE_LIMIT / TASTE_UNIT`.
pub const IMPACT_LIMIT: i64 = 262_144_000_000_000_000;

/// The radius within which a musician cuts the sight lines of the others:
/// five units.
pub const MUSICIAN_RADIUS: i64 = 2_560;

/// Volumes and closeness factors are counted in millionths: this is the
/// factor one.
pub const FACTOR_UNIT: i64 = 1_000_000;

/// The loudest volume, ten times `FACTOR_UNIT`; louder ones count as this.
pub const MAX_VOLUME: u32 = 10_000_000;

/// One over a distance of one step, in millionths of one over a unit:
/// `FACTOR_UNIT * UNIT`.
pub const INVERSE_STEP: i64 = 512_000_000;

/// Largest closeness factor: one for the musician and at most
/// `INVERSE_STEP` for each of the others, in millionths.
pub const CLOSENESS_LIMIT: u64 = 33_554_433_000_000;

/// Largest magnitude of what one attendee awards one musician:
/// `MAX_VOLUME * CLOSENESS_LIMIT * IMPACT_LIMIT / FACTOR_UNIT^2`.
pub const TERM_LIMIT: i128 = 87_960_932_843_520_000_000_000_000;

/// Largest magnitude of a score:
/// `ATTENDEE_LIMIT * MUSICIAN_LIMIT * TERM_LIMIT`.
pub const TOTAL_LIMIT: i128 = 48_357_034_225_737_047_746_805_760_000_000_000_000;

/// The quotient `n / d` rounded towards positive infinity, for `d > 0`.
pub open spec fn ceil_div(n: int, d: int) -> int {
    (n + d - 1) / d
}

/// `ceil_div(n, d)` is the least integer `q` with `n <= q * d`.
pub proof fn lemma_ceil_div(n: int, d: int)
    requires
        d > 0,
    ensures
        (ceil_div(n, d) - 1) * d < n <= ceil_div(n, d) * d,
{
    let q = (n + d - 1) / d;
    let r = (n + d - 1) % d;
    vstd::arithmetic::div_mod::lemma_fundamental_div_mod(n + d - 1, d);
    vstd::arithmetic::div_mod::lemma_mod_bound(n + d - 1, d);
    assert(n + d - 1 == d * q + r);
    assert((q - 1) * d == d * q - d) by (nonlinear_arith);
    assert(q * d == d * q) by (nonlinear_arith);
}

/// An integer `q` with `(q - 1) * d < n <= q * d` is `ceil_div(n, d)`.
pub proof fn lemma_ceil_div_unique(n: int, d: int, q: int)
    requires
        d > 0,
        (q - 1) * d < n <= q * d,
    ensures
        q == ceil_div(n, d),
{
    let r = n + d - 1 - q * d;
    assert((q - 1) * d == q * d - d) by (nonlinear_arith);
    assert(0 <= r < d);
    assert(n + d - 1 == q * d + r);
    vstd::arithmetic::div_mod::lemma_fundamental_div_mod_converse(n + d - 1, d, q, r);
}

/// Computes `ceil_div(n, d)`.
pub fn ceiling_quotient(n: i128, d: i128) -> (q: i128)
    requires
        d > 0,
        n > i128::MIN,
    ensures
        q == ceil_div(n as int, d as int),
        n >= 0 ==> 0 <= q <= n,
        n <= 0 ==> n <= q <= 0,
{
    if n >= 0 {
        let nu: u128 = n as u128;
        let du: u128 = d as u128;
        let whole: u128 = nu / du;
        let rest: u128 = nu % du;
        proof {
            vstd::arithmetic::div_mod::lemma_fundamental_div_mod(nu as int, du as int);
            vstd::arithmetic::div_mod::lemma_mod_bound(nu as int, du as int);
            assert(du * whole >= whole) by (nonlinear_arith)
                requires
                    du >= 1,
                    whole >= 0,
            ;
        }
        if rest == 0 {
            proof {
                assert((whole - 1) * d == d * whole - d) by (nonlinear_arith);
                assert(whole * d == d * whole) by (nonlinear_arith);
                lemma_ceil_div_unique(n as int, d as int, whole as int);
            }
            whole as i128
        } else {
            proof {
                assert((whole + 1 - 1) * d == d * whole) by (nonlinear_arith);
                assert((whole + 1) * d == d * whole + d) by (nonlinear_arith);
                lemma_ceil_div_unique(n as int, d as int, whole + 1);
            }
            (whole + 1) as i128
        }
    } else {
        let mu: u128 = (-n) as u128;
        let du: u128 = d as u128;
        let whole: u128 = mu / du;
        proof {
            vstd::arithmetic::div_mod::lemma_fundamental_div_mod(mu as int, du as int);
            vstd::arithmetic::div_mod::lemma_mod_bound(mu as int, du as int);
            assert(du * whole >= whole) by (nonlinear_arith)
                requires
                    du >= 1,
                    whole >= 0,
            ;
            assert((-whole - 1) * d == -(d * whole) - d) by (nonlinear_arith);
            assert((-whole) * d == -(d * whole)) by (nonlinear_arith);
            lemma_ceil_div_unique(n as int, d as int, -(whole as int));
        }
        -(whole as i128)
    }
}

/// What an attendee awards a musician of the given instrument who plays
/// at `placement` in plain sight: `IMPACT_SCALE` times the taste over the
/// square of the distance in units, rounded up. With the taste in
/// thousandths and the distance in steps that is
/// `IMPACT_SCALE * UNIT^2 * taste / (TASTE_UNIT * distance^2)`. A musician
/// standing exactly on the attendee is worth nothing.
pub open spec fn impact_of(attendee: Attendee, instrument: Instrument, placement: Point2D) -> int {
    let d2 = dist2(placement, attendee.position());
    if d2 == 0 {
        0
    } else {
        ceil_div(
            IMPACT_SCALE * UNIT * UNIT * attendee.tastes@[instrument.0 as int],
            TASTE_UNIT * d2,
        )
    }
}

/// Every impact is bounded by the scaled taste limit.
pub proof fn lemma_impact_bound(attendee: Attendee, instrument: Instrument, placement: Point2D)
    requires
        attendee.wf(),
        (instrument.0 as int) < attendee.tastes@.len(),
    ensures
        -IMPACT_LIMIT <= impact_of(attendee, instrument, placement) <= IMPACT_LIMIT,
{
    let d2 = dist2(placement, attendee.position());
    lemma_dist2_symmetric(placement, attendee.position());
    if d2 != 0 {
        let t = attendee.tastes@[instrument.0 as int];
        let n = IMPACT_SCALE * UNIT * UNIT * t;
        let d = TASTE_UNIT * d2;
        let q = ceil_div(n, d);
        lemma_ceil_div(n, d);
        let m: int = IMPACT_LIMIT as int;
        assert(-(m * 1000) <= n <= m * 1000) by (nonlinear_arith)
            requires
                n == 262_144_000_000 * t,
                m == 262_144_000_000_000_000,
                -1_000_000_000 <= t <= 1_000_000_000,
        ;
        assert(q <= m) by (nonlinear_arith)
            requires
                (q - 1) * d < n,
                n <= m * 1000,
                d >= 1000,
                m >= 0,
        ;
        assert(q >= -m) by (nonlinear_arith)
            requires
                n <= q * d,
                n >= -(m * 1000),
                d >= 1000,
                m >= 0,
        ;
    }
}

/// What `attendee` awards a musician of `instrument` playing at
/// `placement` in plain sight.
pub fn calculate_impact(attendee: &Attendee, instrument: &Instrument, placement: &Point2D) -> (impact:
    i64)
    requires
        attendee.wf(),
        placement.wf(),
        (instrument.0 as int) < attendee.tastes@.len(),
    ensures
        impact == impact_of(*attendee, *instrument, *placement),
{
    let position = attendee.as_vec();
    let distance_square = distance2(placement, &position);
    if distance_square == 0 {
        return 0;
    }
    let taste: i64 = attendee.tastes[instrument.0 as usize];
    proof {
        lemma_impact_bound(*attendee, *instrument, *placement);
        assert(IMPACT_SCALE * UNIT * UNIT * taste == 262_144_000_000 * taste) by (nonlinear_arith);
    }
    let scaled: i128 = 262_144_000_000 * taste as i128;
    let impact = ceiling_quotient(scaled, TASTE_UNIT as i128 * distance_square as i128);
    impact as i64
}

/// Tells whether the disk around `blocker_center` cuts the sight line from
/// `attendee` to `pos`.
pub fn is_sound_blocked(
    pos: &Point2D,
    blocker_center: &Point2D,
    blocker_radius: i64,
    attendee: &Point2D,
) -> (blocked: bool)
    requires
        pos.wf(),
        blocker_center.wf(),
        attendee.wf(),
        0 <= blocker_radius <= crate::dto::COORD_LIMIT,
    ensures
        blocked == segment_hits_disk(*attendee, *pos, *blocker_center, blocker_radius as int),
{
    line_circle_intersection(attendee, pos, blocker_center, blocker_radius)
}

/// Some placed musician other than number `i` cuts the sight line from
/// `attendee` to `target`.
pub open spec fn blocked_by_musician(
    attendee: Point2D,
    target: Point2D,
    placements: Seq<Option<Point2D>>,
    i: int,
) -> bool {
    exists|j: int|
        0 <= j < placements.len() && j != i && (#[trigger] placements[j]).is_some()
            && segment_hits_disk(attendee, target, placements[j].unwrap(), MUSICIAN_RADIUS as int)
}

/// Some pillar cuts the sight line from `attendee` to `target`.
pub open spec fn blocked_by_pillar(attendee: Point2D, target: Point2D, pillars: Seq<PillarDto>) -> bool {
    exists|k: int|
        0 <= k < pillars.len() && segment_hits_disk(
            attendee,
            target,
            (#[trigger] pillars[k]).position(),
            pillars[k].radius as int,
        )
}

/// Every placed musician stands within the supported range.
pub open spec fn placements_wf(placements: Seq<Option<Point2D>>) -> bool {
    forall|j: int|
        0 <= j < placements.len() && (#[trigger] placements[j]).is_some()
            ==> placements[j].unwrap().wf()
}

/// Every pillar is within the supported range.
pub open spec fn pillars_wf(pillars: Seq<PillarDto>) -> bool {
    forall|k: int| 0 <= k < pillars.len() ==> (#[trigger] pillars[k]).wf()
}

/// Tells whether a placed musician other than number `i` cuts the sight
/// line from `attendee` to `target`.
pub fn is_blocked_by_musicians(
    attendee: &Point2D,
    target: &Point2D,
    placements: &Vec<Option<Point2D>>,
    i: usize,
) -> (blocked: bool)
    requires
        attendee.wf(),
        target.wf(),
        placements_wf(placements@),
    ensures
        blocked == blocked_by_musician(*attendee, *target, placements@, i as int),
{
    let mut other_i: usize = 0;
    while other_i < placements.len()
        invariant
            other_i <= placements@.len(),
            attendee.wf(),
            target.wf(),
            placements_wf(placements@),
            forall|j: int|
                0 <= j < other_i && j != i && (#[trigger] placements@[j]).is_some()
                    ==> !segment_hits_disk(
                    *attendee,
                    *target,
                    placements@[j].unwrap(),
                    MUSICIAN_RADIUS as int,
                ),
        decreases placements@.len() - other_i,
    {
        if other_i != i {
            if let Some(other) = &placements[other_i] {
                if is_sound_blocked(target, other, MUSICIAN_RADIUS, attendee) {
                    return true;
                }
            }
        }
        other_i += 1;
    }
    false
}

/// Tells whether a pillar cuts the sight line from `attendee` to `target`.
pub fn is_blocked_by_pillars(attendee: &Point2D, target: &Point2D, pillars: &Vec<PillarDto>) -> (blocked:
    bool)
    requires
        attendee.wf(),
        target.wf(),
        pillars_wf(pillars@),
    ensures
        blocked == blocked_by_pillar(*attendee, *target, pillars@),
{
    let mut k: usize = 0;
    while k < pillars.len()
        invariant
            k <= pillars@.len(),
            attendee.wf(),
            target.wf(),
            pillars_wf(pillars@),
            forall|j: int|
                0 <= j < k ==> !segment_hits_disk(
                    *attendee,
                    *target,
                    (#[trigger] pillars@[j]).position(),
                    pillars@[j].radius as int,
                ),
        decreases pillars@.len() - k,
    {
        let center = pillars[k].as_vec();
        if is_sound_blocked(target, &center, pillars[k].radius, attendee) {
            return true;
        }
        k += 1;
    }
    false
}

/// `q` is one over the distance whose square is `d2` steps, counted in
/// millionths of one over a unit and rounded down:
/// `q <= INVERSE_STEP / sqrt(d2) < q + 1`, with both sides squared.
pub open spec fn is_inverse_distance(d2: int, q: int) -> bool {
    &&& q >= 0
    &&& q * q * d2 <= INVERSE_STEP * INVERSE_STEP
    &&& INVERSE_STEP * INVERSE_STEP < (q + 1) * (q + 1) * d2
}

/// One over the distance whose square is `d2`, in millionths, rounded
/// down.
pub open spec fn inverse_distance(d2: int) -> int {
    choose|q: int| is_inverse_distance(d2, q)
}

/// At most one number is the inverse distance of `d2`.
pub proof fn lemma_inverse_distance_unique(d2: int, q: int)
    requires
        d2 > 0,
        is_inverse_distance(d2, q),
    ensures
        inverse_distance(d2) == q,
        q <= INVERSE_STEP,
{
    let p = inverse_distance(d2);
    assert(is_inverse_distance(d2, p));
    if p < q {
        assert((p + 1) * (p + 1) * d2 <= q * q * d2) by (nonlinear_arith)
            requires
                0 <= p + 1 <= q,
                d2 > 0,
        ;
    }
    if q < p {
        assert((q + 1) * (q + 1) * d2 <= p * p * d2) by (nonlinear_arith)
            requires
                0 <= q + 1 <= p,
                d2 > 0,
        ;
    }
    if q > INVERSE_STEP {
        assert(q * q * d2 > INVERSE_STEP * INVERSE_STEP) by (nonlinear_arith)
            requires
                q > INVERSE_STEP,
                INVERSE_STEP > 0,
                d2 >= 1,
        ;
    }
}

/// The integer square root of a number up to `INVERSE_STEP^2`.
pub fn integer_sqrt(n: u64) -> (r: u64)
    requires
        n <= INVERSE_STEP * INVERSE_STEP,
    ensures
        r * r <= n < (r + 1) * (r + 1),
        r <= INVERSE_STEP,
{
    let mut lo: u64 = 0;
    let mut hi: u64 = 512_000_001;
    while hi - lo > 1
        invariant
            lo < hi <= 512_000_001,
            lo * lo <= n < hi * hi,
        decreases hi - lo,
    {
        let mid: u64 = lo + (hi - lo) / 2;
        assert(mid * mid <= 512_000_000 * 512_000_000) by (nonlinear_arith)
            requires
                0 <= mid <= 512_000_000,
        ;
        if mid * mid <= n {
            lo = mid;
        } else {
            hi = mid;
        }
    }
    lo
}

/// One over the distance whose square is `d2`, in millionths, rounded
/// down.
pub fn inverse_distance_of(d2: u64) -> (q: u64)
    requires
        d2 > 0,
    ensures
        q == inverse_distance(d2 as int),
        q <= INVERSE_STEP,
{
    let unit_sq: u64 = 262_144_000_000_000_000;
    let n: u64 = unit_sq / d2;
    proof {
        vstd::arithmetic::div_mod::lemma_div_is_ordered_by_denominator(
            unit_sq as int,
            1,
            d2 as int,
        );
        vstd::arithmetic::div_mod::lemma_div_basics_3(unit_sq as int);
    }
    let q = integer_sqrt(n);
    proof {
        let rest = unit_sq % d2;
        vstd::arithmetic::div_mod::lemma_fundamental_div_mod(unit_sq as int, d2 as int);
        vstd::arithmetic::div_mod::lemma_mod_bound(unit_sq as int, d2 as int);
        assert(q * q * d2 <= unit_sq) by (nonlinear_arith)
            requires
                q * q <= n,
                unit_sq == d2 * n + rest,
                rest >= 0,
                d2 > 0,
        ;
        assert(unit_sq < (q + 1) * (q + 1) * d2) by (nonlinear_arith)
            requires
                n + 1 <= (q + 1) * (q + 1),
                unit_sq == d2 * n + rest,
                rest < d2,
                d2 > 0,
        ;
        lemma_inverse_distance_unique(d2 as int, q as int);
    }
    q
}

/// What the musician at `other`, who plays `other_instrument`, adds to the
/// closeness factor of one who plays `instrument` at `placement`: one over
/// their distance if they play the same instrument at different places.
pub open spec fn pair_closeness(
    placement: Point2D,
    instrument: Instrument,
    other: Option<Point2D>,
    other_instrument: Instrument,
) -> int {
    if other_instrument == instrument && other.is_some() && other.unwrap() != placement {
        inverse_distance(dist2(placement, other.unwrap()))
    } else {
        0
    }
}

/// The sum of `pair_closeness` over the first `n` musicians.
pub open spec fn closeness_sum(
    placement: Point2D,
    instrument: Instrument,
    musicians: Seq<Instrument>,
    placements: Seq<Option<Point2D>>,
    n: int,
) -> int
    decreases n,
{
    if n <= 0 {
        0
    } else {
        closeness_sum(placement, instrument, musicians, placements, n - 1) + pair_closeness(
            placement,
            instrument,
            placements[n - 1],
            musicians[n - 1],
        )
    }
}

/// The closeness factor of musician `i`, in millionths: one, and one over
/// the distance to each other placed musician of the same instrument. For
/// a musician who is not placed it is one.
pub open spec fn closeness_of(
    musicians: Seq<Instrument>,
    placements: Seq<Option<Point2D>>,
    i: int,
) -> int {
    match placements[i] {
        Some(p) => FACTOR_UNIT + closeness_sum(
            p,
            musicians[i],
            musicians,
            placements,
            musicians.len() as int,
        ),
        None => FACTOR_UNIT as int,
    }
}

/// The closeness factor of a musician who plays `instrument` at `placement`.
pub fn calculate_closeness_factor(
    placement: Point2D,
    instrument: Instrument,
    musicians: &Vec<Instrument>,
    placements: &Vec<Option<Point2D>>,
) -> (factor: u64)
    requires
        placement.wf(),
        placements_wf(placements@),
        musicians@.len() == placements@.len(),
        musicians@.len() <= MUSICIAN_LIMIT,
    ensures
        factor == FACTOR_UNIT + closeness_sum(
            placement,
            instrument,
            musicians@,
            placements@,
            musicians@.len() as int,
        ),
        FACTOR_UNIT <= factor <= CLOSENESS_LIMIT,
{
    let mut factor: u64 = 0;
    let mut j: usize = 0;
    while j < musicians.len()
        invariant
            j <= musicians@.len(),
            placement.wf(),
            placements_wf(placements@),
            musicians@.len() == placements@.len(),
            musicians@.len() <= MUSICIAN_LIMIT,
            factor == closeness_sum(placement, instrument, musicians@, placements@, j as int),
            factor <= j * INVERSE_STEP,
        decreases musicians@.len() - j,
    {
        if musicians[j] == instrument {
            if let Some(other_placement) = &placements[j] {
                if *other_placement != placement {
                    let d2 = distance2(&placement, other_placement);
                    proof {
                        lemma_dist2_symmetric(placement, *other_placement);
                    }
                    factor += inverse_distance_of(d2);
                }
            }
        }
        j += 1;
    }
    factor + 1_000_000
}

/// The closeness factor of every musician.
pub fn calculate_closeness_factors(
    musicians: &Vec<Instrument>,
    placements: &Vec<Option<Point2D>>,
) -> (closeness_factors: Vec<u64>)
    requires
        placements_wf(placements@),
        musicians@.len() == placements@.len(),
        musicians@.len() <= MUSICIAN_LIMIT,
    ensures
        closeness_factors@.len() == musicians@.len(),
        forall|i: int|
            0 <= i < musicians@.len() ==> #[trigger] closeness_factors@[i] == closeness_of(
                musicians@,
                placements@,
                i,
            ),
        forall|i: int|
            0 <= i < musicians@.len() ==> #[trigger] closeness_factors@[i] <= CLOSENESS_LIMIT,
{
    let mut closeness_factors: Vec<u64> = Vec::new();
    let mut i: usize = 0;
    while i < musicians.len()
        invariant
            i <= musicians@.len(),
            placements_wf(placements@),
            musicians@.len() == placements@.len(),
            musicians@.len() <= MUSICIAN_LIMIT,
            closeness_factors@.len() == i,
            forall|k: int|
                0 <= k < i ==> #[trigger] closeness_factors@[k] == closeness_of(
                    musicians@,
                    placements@,
                    k,
                ),
            forall|k: int| 0 <= k < i ==> #[trigger] closeness_factors@[k] <= CLOSENESS_LIMIT,
        decreases musicians@.len() - i,
    {
        let closeness_factor = match &placements[i] {
            Some(p) => calculate_closeness_factor(*p, musicians[i], musicians, placements),
            None => 1_000_000,
        };
        closeness_factors.push(closeness_factor);
        i += 1;
    }
    closeness_factors
}

/// The volume of musician `i` in millionths: one where no volumes are
/// given, and never more than `MAX_VOLUME`.
pub open spec fn volume_factor(volumes: Option<Seq<u32>>, i: int) -> int {
    match volumes {
        Some(v) => if v[i] > MAX_VOLUME {
            MAX_VOLUME as int
        } else {
            v[i] as int
        },
        None => FACTOR_UNIT as int,
    }
}

/// The closeness factor of musician `i` in millionths: one where no
/// factors are given.
pub open spec fn closeness_factor(closeness_factors: Seq<u64>, i: int) -> int {
    if closeness_factors.len() == 0 {
        FACTOR_UNIT as int
    } else {
        closeness_factors[i] as int
    }
}

/// An impact scaled by a volume and a closeness factor, both in
/// millionths, rounded up.
pub open spec fn scaled_impact(impact: int, volume: int, closeness: int) -> int {
    ceil_div(volume * closeness * impact, FACTOR_UNIT * FACTOR_UNIT)
}

/// With volume one and closeness one the impact is left as it is.
pub proof fn lemma_scaled_impact_unit(impact: int)
    ensures
        scaled_impact(impact, FACTOR_UNIT as int, FACTOR_UNIT as int) == impact,
{
    let d = FACTOR_UNIT * FACTOR_UNIT;
    assert(FACTOR_UNIT * FACTOR_UNIT * impact == impact * d) by (nonlinear_arith)
        requires
            d == FACTOR_UNIT * FACTOR_UNIT,
    ;
    assert((impact - 1) * d < impact * d) by (nonlinear_arith)
        requires
            d > 0,
    ;
    lemma_ceil_div_unique(impact * d, d, impact);
}

/// A scaled impact is bounded by `TERM_LIMIT`.
pub proof fn lemma_scaled_impact_bound(impact: int, volume: int, closeness: int)
    requires
        -IMPACT_LIMIT <= impact <= IMPACT_LIMIT,
        0 <= volume <= MAX_VOLUME,
        0 <= closeness <= CLOSENESS_LIMIT,
    ensures
        -TERM_LIMIT <= scaled_impact(impact, volume, closeness) <= TERM_LIMIT,
        -(MAX_VOLUME * CLOSENESS_LIMIT * IMPACT_LIMIT) <= volume * closeness * impact
            <= MAX_VOLUME * CLOSENESS_LIMIT * IMPACT_LIMIT,
        -(MAX_VOLUME * CLOSENESS_LIMIT) <= volume * closeness <= MAX_VOLUME * CLOSENESS_LIMIT,
{
    let d = FACTOR_UNIT * FACTOR_UNIT;
    let n = volume * closeness * impact;
    lemma_product_bound(volume, closeness, MAX_VOLUME as int, CLOSENESS_LIMIT as int);
    lemma_product_bound(
        volume * closeness,
        impact,
        MAX_VOLUME * CLOSENESS_LIMIT,
        IMPACT_LIMIT as int,
    );
    let q = ceil_div(n, d);
    lemma_ceil_div(n, d);
    assert(MAX_VOLUME * CLOSENESS_LIMIT * IMPACT_LIMIT == TERM_LIMIT * d);
    assert(q <= TERM_LIMIT) by (nonlinear_arith)
        requires
            (q - 1) * d < n,
            n <= TERM_LIMIT * d,
            d > 0,
    ;
    assert(q >= -TERM_LIMIT) by (nonlinear_arith)
        requires
            n <= q * d,
            n >= -(TERM_LIMIT * d),
            d > 0,
    ;
}

/// What `attendee` awards musician `i`: nothing while the musician is not
/// placed or another placed musician or a pillar cuts the sight line,
/// else the impact scaled by volume and closeness.
pub open spec fn musician_contribution(
    attendee: Attendee,
    musicians: Seq<Instrument>,
    placements: Seq<Option<Point2D>>,
    pillars: Seq<PillarDto>,
    closeness_factors: Seq<u64>,
    volumes: Option<Seq<u32>>,
    i: int,
) -> int {
    match placements[i] {
        None => 0,
        Some(p) => if blocked_by_musician(attendee.position(), p, placements, i)
            || blocked_by_pillar(attendee.position(), p, pillars) {
            0
        } else {
            scaled_impact(
                impact_of(attendee, musicians[i], p),
                volume_factor(volumes, i),
                closeness_factor(closeness_factors, i),
            )
        },
    }
}

/// What `attendee` awards the first `n` musicians together.
pub open spec fn attendee_happiness(
    attendee: Attendee,
    musicians: Seq<Instrument>,
    placements: Seq<Option<Point2D>>,
    pillars: Seq<PillarDto>,
    closeness_factors: Seq<u64>,
    volumes: Option<Seq<u32>>,
    n: int,
) -> int
    decreases n,
{
    if n <= 0 {
        0
    } else {
        attendee_happiness(
            attendee,
            musicians,
            placements,
            pillars,
            closeness_factors,
            volumes,
            n - 1,
        ) + musician_contribution(
            attendee,
            musicians,
            placements,
            pillars,
            closeness_factors,
            volumes,
            n - 1,
        )
    }
}

/// The volumes as a sequence, where there are any.
pub open spec fn volumes_view(volumes: Option<&Vec<u32>>) -> Option<Seq<u32>> {
    match volumes {
        Some(v) => Some(v@),
        None => None,
    }
}

/// The closeness factors are none, or one within range for each of `n`
/// musicians.
pub open spec fn closeness_factors_wf(closeness_factors: Seq<u64>, n: int) -> bool {
    closeness_factors.len() == 0 || (closeness_factors.len() == n && forall|i: int|
        0 <= i < n ==> #[trigger] closeness_factors[i] <= CLOSENESS_LIMIT)
}

/// The volumes are none, or one for each of `n` musicians.
pub open spec fn volumes_wf(volumes: Option<Seq<u32>>, n: int) -> bool {
    match volumes {
        Some(v) => v.len() == n,
        None => true,
    }
}

/// What `attendee` awards all musicians together.
pub fn calculate_attendee_happiness(
    attendee: &Attendee,
    musicians: &Vec<Instrument>,
    placements: &Vec<Option<Point2D>>,
    pillars: &Vec<PillarDto>,
    closeness_factors: &Vec<u64>,
    volumes: Option<&Vec<u32>>,
) -> (happiness: i128)
    requires
        attendee.wf(),
        forall|m: int|
            0 <= m < musicians@.len() ==> ((#[trigger] musicians@[m]).0 as int)
                < attendee.tastes@.len(),
        musicians@.len() == placements@.len(),
        musicians@.len() <= MUSICIAN_LIMIT,
        placements_wf(placements@),
        pillars_wf(pillars@),
        closeness_factors_wf(closeness_factors@, musicians@.len() as int),
        volumes_wf(volumes_view(volumes), musicians@.len() as int),
    ensures
        happiness == attendee_happiness(
            *attendee,
            musicians@,
            placements@,
            pillars@,
            closeness_factors@,
            volumes_view(volumes),
            musicians@.len() as int,
        ),
        -(musicians@.len() * TERM_LIMIT) <= happiness <= musicians@.len() * TERM_LIMIT,
{
    let mut happiness: i128 = 0;
    let position = attendee.as_vec();
    let mut i: usize = 0;
    while i < musicians.len()
        invariant
            i <= musicians@.len(),
            position == attendee.position(),
            attendee.wf(),
            forall|m: int|
                0 <= m < musicians@.len() ==> ((#[trigger] musicians@[m]).0 as int)
                    < attendee.tastes@.len(),
            musicians@.len() == placements@.len(),
            musicians@.len() <= MUSICIAN_LIMIT,
            placements_wf(placements@),
            pillars_wf(pillars@),
            closeness_factors_wf(closeness_factors@, musicians@.len() as int),
            volumes_wf(volumes_view(volumes), musicians@.len() as int),
            happiness == attendee_happiness(
                *attendee,
                musicians@,
                placements@,
                pillars@,
                closeness_factors@,
                volumes_view(volumes),
                i as int,
            ),
            -(i * TERM_LIMIT) <= happiness <= i * TERM_LIMIT,
        decreases musicians@.len() - i,
    {
        if let Some(placement) = &placements[i] {
            if !is_blocked_by_musicians(&position, placement, placements, i)
                && !is_blocked_by_pillars(&position, placement, pillars) {
                let volume: u32 = match volumes {
                    Some(vs) => if vs[i] > MAX_VOLUME {
                        MAX_VOLUME
                    } else {
                        vs[i]
                    },
                    None => 1_000_000,
                };
                let closeness: u64 = if closeness_factors.len() == 0 {
                    1_000_000
                } else {
                    closeness_factors[i]
                };
                let impact = calculate_impact(attendee, &musicians[i], placement);
                proof {
                    lemma_impact_bound(*attendee, musicians@[i as int], *placement);
                    lemma_scaled_impact_bound(impact as int, volume as int, closeness as int);
                }
                let scaled: i128 = volume as i128 * closeness as i128 * impact as i128;
                let unit_sq: i128 = 1_000_000_000_000;
                happiness += ceiling_quotient(scaled, unit_sq);
            }
        }
        i += 1;
    }
    happiness
}

/// The closeness factors that count for a problem with the given pillars:
/// none where there is no pillar, else that of every musician.
pub open spec fn closeness_factors_for(
    pillars: Seq<PillarDto>,
    musicians: Seq<Instrument>,
    placements: Seq<Option<Point2D>>,
) -> Seq<u64> {
    if pillars.len() == 0 {
        Seq::empty()
    } else {
        Seq::new(musicians.len(), |i: int| closeness_of(musicians, placements, i) as u64)
    }
}

/// What the first `n` attendees award all musicians together.
pub open spec fn total_happiness(
    problem: ProblemDto,
    placements: Seq<Option<Point2D>>,
    volumes: Option<Seq<u32>>,
    n: int,
) -> int
    decreases n,
{
    if n <= 0 {
        0
    } else {
        total_happiness(problem, placements, volumes, n - 1) + attendee_happiness(
            problem.attendees@[n - 1],
            problem.musicians@,
            placements,
            problem.pillars@,
            closeness_factors_for(problem.pillars@, problem.musicians@, placements),
            volumes,
            problem.musicians@.len() as int,
        )
    }
}

/// The score of a placement: what all attendees award all musicians.
pub open spec fn score_of(
    problem: ProblemDto,
    placements: Seq<Option<Point2D>>,
    volumes: Option<Seq<u32>>,
) -> int {
    total_happiness(problem, placements, volumes, problem.attendees@.len() as int)
}

/// Scores a placement. The closeness factors count only where the problem
/// has pillars.
pub fn score(problem: &ProblemDto, placements: &Vec<Option<Point2D>>, volumes: Option<&Vec<u32>>) -> (total:
    Score)
    requires
        problem.wf(),
        placements@.len() == problem.musicians@.len(),
        placements_wf(placements@),
        volumes_wf(volumes_view(volumes), problem.musicians@.len() as int),
    ensures
        total.0 == score_of(*problem, placements@, volumes_view(volumes)),
        -TOTAL_LIMIT <= total.0 <= TOTAL_LIMIT,
{
    let closeness_factors = if problem.pillars.len() == 0 {
        Vec::new()
    } else {
        calculate_closeness_factors(&problem.musicians, placements)
    };
    assert(closeness_factors@ =~= closeness_factors_for(
        problem.pillars@,
        problem.musicians@,
        placements@,
    ));
    let mut total: i128 = 0;
    let mut a: usize = 0;
    let ghost per_attendee: int = MUSICIAN_LIMIT * TERM_LIMIT;
    while a < problem.attendees.len()
        invariant
            a <= problem.attendees@.len(),
            problem.wf(),
            placements@.len() == problem.musicians@.len(),
            placements_wf(placements@),
            volumes_wf(volumes_view(volumes), problem.musicians@.len() as int),
            closeness_factors@ == closeness_factors_for(
                problem.pillars@,
                problem.musicians@,
                placements@,
            ),
            closeness_factors_wf(closeness_factors@, problem.musicians@.len() as int),
            per_attendee == MUSICIAN_LIMIT * TERM_LIMIT,
            total == total_happiness(*problem, placements@, volumes_view(volumes), a as int),
            -(a * per_attendee) <= total <= a * per_attendee,
        decreases problem.attendees@.len() - a,
    {
        let attendee = &problem.attendees[a];
        assert(problem.attendees@[a as int].wf());
        assert forall|m: int| 0 <= m < problem.musicians@.len() implies ((
        #[trigger] problem.musicians@[m]).0 as int) < attendee.tastes@.len() by {
            assert(tastes_cover(problem.attendees@, problem.musicians@[m]));
        }
        let happiness = calculate_attendee_happiness(
            attendee,
            &problem.musicians,
            placements,
            &problem.pillars,
            &closeness_factors,
            volumes,
        );
        assert(-per_attendee <= happiness <= per_attendee) by (nonlinear_arith)
            requires
                -(problem.musicians@.len() * TERM_LIMIT) <= happiness <= problem.musicians@.len()
                    * TERM_LIMIT,
                problem.musicians@.len() <= MUSICIAN_LIMIT,
                per_attendee == MUSICIAN_LIMIT * TERM_LIMIT,
        ;
        assert((a + 1) * per_attendee == a * per_attendee + per_attendee) by (nonlinear_arith);
        assert(a * per_attendee <= ATTENDEE_LIMIT * per_attendee) by (nonlinear_arith)
            requires
                a <= ATTENDEE_LIMIT,
                per_attendee >= 0,
        ;
        total += happiness;
        a += 1;
    }
    assert(a * per_attendee <= ATTENDEE_LIMIT * per_attendee) by (nonlinear_arith)
        requires
            a <= ATTENDEE_LIMIT,
            per_attendee >= 0,
    ;
    Score(total)
}

/// Rounded up, what is not above zero stays not above zero.
pub proof fn lemma_ceil_div_not_positive(n: int, d: int)
    requires
        d > 0,
        n <= 0,
    ensures
        ceil_div(n, d) <= 0,
{
    let q = ceil_div(n, d);
    lemma_ceil_div(n, d);
    assert(q <= 0) by (nonlinear_arith)
        requires
            (q - 1) * d < n,
            n <= 0,
            d > 0,
    ;
}

/// An attendee who likes none of the instruments played awards nothing
/// above zero, wherever the musicians stand and however loud they play.
pub proof fn lemma_dislike_awards_no_more_than_nothing(
    attendee: Attendee,
    musicians: Seq<Instrument>,
    placements: Seq<Option<Point2D>>,
    pillars: Seq<PillarDto>,
    closeness_factors: Seq<u64>,
    volumes: Option<Seq<u32>>,
    n: int,
)
    requires
        n <= musicians.len(),
        forall|i: int|
            0 <= i < musicians.len() ==> attendee.tastes@[(#[trigger] musicians[i]).0 as int] <= 0,
    ensures
        attendee_happiness(attendee, musicians, placements, pillars, closeness_factors, volumes, n)
            <= 0,
    decreases n,
{
    if n > 0 {
        lemma_dislike_awards_no_more_than_nothing(
            attendee,
            musicians,
            placements,
            pillars,
            closeness_factors,
            volumes,
            n - 1,
        );
        let i = n - 1;
        match placements[i] {
            None => {},
            Some(p) => {
                let taste = attendee.tastes@[musicians[i].0 as int];
                let d2 = dist2(p, attendee.position());
                let impact = impact_of(attendee, musicians[i], p);
                if d2 != 0 {
                    assert(d2 > 0) by (nonlinear_arith)
                        requires
                            d2 == (p.x - attendee.position().x) * (p.x - attendee.position().x) + (
                            p.y - attendee.position().y) * (p.y - attendee.position().y),
                            d2 != 0,
                    ;
                    assert(IMPACT_SCALE * UNIT * UNIT * taste <= 0) by (nonlinear_arith)
                        requires
                            taste <= 0,
                    ;
                    lemma_ceil_div_not_positive(
                        IMPACT_SCALE * UNIT * UNIT * taste,
                        TASTE_UNIT * d2,
                    );
                }
                let volume = volume_factor(volumes, i);
                let closeness = closeness_factor(closeness_factors, i);
                assert(volume * closeness * impact <= 0) by (nonlinear_arith)
                    requires
                        volume >= 0,
                        closeness >= 0,
                        impact <= 0,
                ;
                lemma_ceil_div_not_positive(
                    volume * closeness * impact,
                    FACTOR_UNIT * FACTOR_UNIT,
                );
            },
        }
    }
}

/// The first attendees award the same in two problems that differ only in
/// the attendees that follow them.
proof fn lemma_total_happiness_of_the_first(
    fewer: ProblemDto,
    more: ProblemDto,
    placements: Seq<Option<Point2D>>,
    volumes: Option<Seq<u32>>,
    n: int,
)
    requires
        more.musicians@ == fewer.musicians@,
        more.pillars@ == fewer.pillars@,
        n <= fewer.attendees@.len() <= more.attendees@.len(),
        forall|a: int| 0 <= a < fewer.attendees@.len() ==> more.attendees@[a] == fewer.attendees@[a],
    ensures
        total_happiness(more, placements, volumes, n) == total_happiness(
            fewer,
            placements,
            volumes,
            n,
        ),
    decreases n,
{
    if n > 0 {
        lemma_total_happiness_of_the_first(fewer, more, placements, volumes, n - 1);
    }
}

/// One more attendee changes the score of a placement by what that
/// attendee awards, whatever else the problem holds.
pub proof fn lemma_score_with_one_more_attendee(
    fewer: ProblemDto,
    more: ProblemDto,
    placements: Seq<Option<Point2D>>,
    volumes: Option<Seq<u32>>,
)
    requires
        more.musicians@ == fewer.musicians@,
        more.pillars@ == fewer.pillars@,
        more.attendees@.len() == fewer.attendees@.len() + 1,
        forall|a: int| 0 <= a < fewer.attendees@.len() ==> more.attendees@[a] == fewer.attendees@[a],
    ensures
        score_of(more, placements, volumes) == score_of(fewer, placements, volumes)
            + attendee_happiness(
            more.attendees@.last(),
            more.musicians@,
            placements,
            more.pillars@,
            closeness_factors_for(more.pillars@, more.musicians@, placements),
            volumes,
            more.musicians@.len() as int,
        ),
{
    lemma_total_happiness_of_the_first(
        fewer,
        more,
        placements,
        volumes,
        fewer.attendees@.len() as int,
    );
}

/// One more attendee who has a taste for every instrument played, and
/// none above zero, does not raise the score of a placement: it falls by
/// what their dislike is worth.
pub proof fn lemma_dislike_lowers_score(
    fewer: ProblemDto,
    more: ProblemDto,
    placements: Seq<Option<Point2D>>,
    volumes: Option<Seq<u32>>,
)
    requires
        more.musicians@ == fewer.musicians@,
        more.pillars@ == fewer.pillars@,
        more.attendees@.len() == fewer.attendees@.len() + 1,
        forall|a: int| 0 <= a < fewer.attendees@.len() ==> more.attendees@[a] == fewer.attendees@[a],
        forall|i: int|
            0 <= i < more.musicians@.len() ==> ((#[trigger] more.musicians@[i]).0 as int)
                < more.attendees@.last().tastes@.len(),
        forall|k: int|
            0 <= k < more.attendees@.last().tastes@.len()
                ==> #[trigger] more.attendees@.last().tastes@[k] <= 0,
    ensures
        score_of(more, placements, volumes) <= score_of(fewer, placements, volumes),
{
    lemma_score_with_one_more_attendee(fewer, more, placements, volumes);
    lemma_dislike_awards_no_more_than_nothing(
        more.attendees@.last(),
        more.musicians@,
        placements,
        more.pillars@,
        closeness_factors_for(more.pillars@, more.musicians@, placements),
        volumes,
        more.musicians@.len() as int,
    );
}

} // verus!
