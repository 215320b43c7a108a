use stage_placer::dto::{Attendee, Instrument, PillarDto, Point2D, ProblemDto};
use stage_placer::scoring::scorer::{
    calculate_attendee_happiness, calculate_closeness_factor, calculate_closeness_factors,
    calculate_impact, ceiling_quotient, integer_sqrt, inverse_distance_of,
    is_blocked_by_musicians, is_blocked_by_pillars, is_sound_blocked, score,
};

/// Steps in a unit of length.
const U: i64 = 512;

/// An attendee at a place given in units, with tastes given in whole numbers.
fn attendee(x: i64, y: i64, tastes: &[i64]) -> Attendee {
    Attendee { x: x * U, y: y * U, tastes: tastes.iter().map(|t| t * 1000).collect() }
}

/// The point at a place given in units.
fn point(x: i64, y: i64) -> Point2D {
    Point2D { x: x * U, y: y * U }
}

fn problem(musicians: &[u32], attendees: Vec<Attendee>, pillars: Vec<PillarDto>) -> ProblemDto {
    ProblemDto {
        room_width: 2000 * U,
        room_height: 2000 * U,
        stage_width: 400 * U,
        stage_height: 400 * U,
        stage_bottom_left: point(0, 0),
        musicians: musicians.iter().map(|i| Instrument(*i)).collect(),
        attendees,
        pillars,
    }
}

#[test]
fn ceiling_quotient_rounds_up() {
    assert_eq!(ceiling_quotient(7, 2), 4);
    assert_eq!(ceiling_quotient(8, 2), 4);
    assert_eq!(ceiling_quotient(0, 5), 0);
    assert_eq!(ceiling_quotient(-7, 2), -3);
    assert_eq!(ceiling_quotient(-8, 2), -4);
    assert_eq!(ceiling_quotient(-1, 1000), 0);
    assert_eq!(ceiling_quotient(1, 1000), 1);
}

#[test]
fn fractions_of_units_and_tastes_count() {
    // a taste of 0.5 at a distance of 2.5 units: 0.5e6 / 6.25
    let a = Attendee { x: 0, y: 0, tastes: vec![500] };
    assert_eq!(calculate_impact(&a, &Instrument(0), &Point2D { x: 768, y: 1024 }), 80_000);
    // at a distance of one step: 0.5e6 * 512 * 512
    assert_eq!(calculate_impact(&a, &Instrument(0), &Point2D { x: 0, y: 1 }), 131_072_000_000);
    // a taste of 0.001 at a distance of 1000 units: 1e3 / 1e6 is rounded up
    let faint = Attendee { x: 0, y: 0, tastes: vec![1, -1] };
    assert_eq!(calculate_impact(&faint, &Instrument(0), &point(1000, 0)), 1);
    assert_eq!(calculate_impact(&faint, &Instrument(1), &point(1000, 0)), 0);
}

#[test]
fn impact_is_scaled_taste_over_squared_distance() {
    let a = attendee(0, 0, &[100, -7]);
    // 100e6 / 2500
    assert_eq!(calculate_impact(&a, &Instrument(0), &point(30, 40)), 40_000);
    // 100e6 / 3700 = 27027.03
    assert_eq!(calculate_impact(&a, &Instrument(0), &point(60, 10)), 27_028);
    // -7e6 / 9 = -777777.8
    assert_eq!(calculate_impact(&a, &Instrument(1), &point(0, 3)), -777_777);
}

#[test]
fn musician_on_the_attendee_is_worth_nothing() {
    let a = attendee(5, 5, &[100]);
    assert_eq!(calculate_impact(&a, &Instrument(0), &point(5, 5)), 0);
}

#[test]
fn two_musicians_in_plain_sight() {
    let p = problem(&[0, 0], vec![attendee(0, 0, &[100])], vec![]);
    let placements = vec![Some(point(30, 40)), Some(point(60, 10))];
    assert_eq!(score(&p, &placements, None).0, 40_000 + 27_028);
}

#[test]
fn negative_taste_lowers_the_score() {
    let liking = attendee(0, 0, &[100]);
    let hating = attendee(0, 100, &[-50]);
    let placements = vec![Some(point(30, 40))];
    let alone = problem(&[0], vec![liking.clone()], vec![]);
    let both = problem(&[0], vec![liking, hating.clone()], vec![]);
    let only_hating = problem(&[0], vec![hating], vec![]);
    // the second attendee is 30, 60 away: -50e6 / 4500 = -11111.1
    assert_eq!(score(&alone, &placements, None).0, 40_000);
    assert_eq!(score(&both, &placements, None).0, 40_000 - 11_111);
    assert_eq!(score(&only_hating, &placements, None).0, -11_111);
}

#[test]
fn musician_in_the_line_of_sight_blocks() {
    let p = problem(&[0, 0], vec![attendee(0, 0, &[100])], vec![]);
    // the first stands between the attendee and the second
    let placements = vec![Some(point(50, 0)), Some(point(100, 3))];
    // 100e6 / 2500 for the first, nothing for the second
    assert_eq!(score(&p, &placements, None).0, 40_000);
    let a = point(0, 0);
    assert!(is_blocked_by_musicians(&a, &point(100, 3), &placements, 1));
    assert!(!is_blocked_by_musicians(&a, &point(50, 0), &placements, 0));
}

#[test]
fn musician_does_not_block_their_own_sight() {
    let placements = vec![Some(point(50, 0))];
    assert!(!is_blocked_by_musicians(&point(0, 0), &point(50, 0), &placements, 0));
    assert!(is_blocked_by_musicians(&point(0, 0), &point(50, 0), &placements, 1));
}

#[test]
fn unplaced_musician_counts_for_nothing() {
    let p = problem(&[0, 0], vec![attendee(0, 0, &[100])], vec![]);
    let placements = vec![None, Some(point(30, 40))];
    assert_eq!(score(&p, &placements, None).0, 40_000);
    assert!(!is_blocked_by_musicians(&point(0, 0), &point(30, 40), &placements, 1));
}

#[test]
fn pillar_blocks_and_brings_closeness_in() {
    let pillar = PillarDto { center: point(0, 50), radius: 10 * U };
    let p = problem(&[0, 0, 1], vec![attendee(0, 0, &[100, 100])], vec![pillar]);
    // the first is behind the pillar; the second and third are in plain sight
    let placements = vec![Some(point(0, 100)), Some(point(100, 0)), Some(point(0, -100))];
    assert!(is_blocked_by_pillars(&point(0, 0), &point(0, 100), &p.pillars));
    assert!(!is_blocked_by_pillars(&point(0, 0), &point(100, 0), &p.pillars));
    let factors = calculate_closeness_factors(&p.musicians, &placements);
    // the first two play the same instrument, 141.42 apart: 1 / 141.42 = 0.007071
    assert_eq!(factors, vec![1_007_071, 1_007_071, 1_000_000]);
    // impacts are 10000 each; the second is scaled by 1.007071
    assert_eq!(score(&p, &placements, None).0, 10_071 + 10_000);
}

#[test]
fn closeness_does_not_count_without_pillars() {
    let p = problem(&[0, 0], vec![attendee(0, 0, &[100])], vec![]);
    let placements = vec![Some(point(100, 0)), Some(point(0, 100))];
    assert_eq!(score(&p, &placements, None).0, 20_000);
}

#[test]
fn closeness_factor_sums_over_the_same_instrument() {
    let musicians = vec![Instrument(0), Instrument(0), Instrument(1), Instrument(0)];
    let placements = vec![Some(point(0, 0)), Some(point(10, 0)), Some(point(0, 10)), None];
    // only the second counts: 1 + 1/10
    assert_eq!(
        calculate_closeness_factor(point(0, 0), Instrument(0), &musicians, &placements),
        1_100_000
    );
    // nobody else plays the second instrument
    assert_eq!(
        calculate_closeness_factor(point(0, 10), Instrument(1), &musicians, &placements),
        1_000_000
    );
}

#[test]
fn inverse_distance_is_rounded_down() {
    // one over a distance of one unit, of ten, of the square root of two, of three
    assert_eq!(inverse_distance_of((U * U) as u64), 1_000_000);
    assert_eq!(inverse_distance_of((100 * U * U) as u64), 100_000);
    assert_eq!(inverse_distance_of((2 * U * U) as u64), 707_106);
    assert_eq!(inverse_distance_of((9 * U * U) as u64), 333_333);
    // one over a distance of one step
    assert_eq!(inverse_distance_of(1), 512_000_000);
    assert_eq!(inverse_distance_of(u64::MAX), 0);
}

#[test]
fn integer_square_roots() {
    assert_eq!(integer_sqrt(0), 0);
    assert_eq!(integer_sqrt(1), 1);
    assert_eq!(integer_sqrt(24), 4);
    assert_eq!(integer_sqrt(25), 5);
    assert_eq!(integer_sqrt(1_000_000_000_000), 1_000_000);
    assert_eq!(integer_sqrt(999_999_999_999), 999_999);
    assert_eq!(integer_sqrt(262_144_000_000_000_000), 512_000_000);
}

#[test]
fn volumes_scale_the_impact() {
    let p = problem(&[0, 0], vec![attendee(0, 0, &[100])], vec![]);
    let placements = vec![Some(point(30, 40)), Some(point(60, 10))];
    let full = vec![10_000_000, 10_000_000];
    assert_eq!(score(&p, &placements, Some(&full)).0, 400_000 + 270_280);
    let mixed = vec![500_000, 0];
    assert_eq!(score(&p, &placements, Some(&mixed)).0, 20_000);
    // louder than the loudest counts as the loudest
    let too_loud = vec![4_000_000_000, 10_000_000];
    assert_eq!(score(&p, &placements, Some(&too_loud)).0, 400_000 + 270_280);
    // a fraction of an impact is rounded up
    let third = vec![333_333, 0];
    assert_eq!(score(&p, &placements, Some(&third)).0, 13_334);
}

#[test]
fn happiness_of_one_attendee() {
    let a = attendee(0, 0, &[100, -100]);
    let musicians = vec![Instrument(0), Instrument(1)];
    let placements = vec![Some(point(30, 40)), Some(point(-30, -40))];
    let h = calculate_attendee_happiness(&a, &musicians, &placements, &vec![], &vec![], None);
    assert_eq!(h, 0);
    let half = vec![500_000, 1_000_000];
    let h = calculate_attendee_happiness(&a, &musicians, &placements, &vec![], &vec![], Some(&half));
    assert_eq!(h, 20_000 - 40_000);
    let closeness = vec![2_000_000, 1_500_000];
    let h = calculate_attendee_happiness(&a, &musicians, &placements, &vec![], &closeness, None);
    assert_eq!(h, 80_000 - 60_000);
}

#[test]
fn sound_is_blocked_by_a_touching_disk() {
    assert!(is_sound_blocked(&point(10, 0), &point(5, 5), 5 * U, &point(0, 0)));
    assert!(!is_sound_blocked(&point(10, 0), &point(5, 5), 5 * U - 1, &point(0, 0)));
}

#[test]
fn score_of_no_attendees_is_zero() {
    let p = problem(&[0], vec![], vec![]);
    assert_eq!(score(&p, &vec![Some(point(30, 40))], None).0, 0);
}
