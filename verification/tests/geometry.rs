use platform_spawn::geometry::{exclusion_at, exclusions_for, integer_sqrt, Platform};
use platform_spawn::region::Region;

fn region(lower: i64, upper: i64) -> Region {
    Region { lower, upper }
}

#[test]
fn a_platform_forty_below_with_reach_fifty_excludes_thirty_either_side() {
    let exclusion = exclusion_at(Platform { x: 0, y: 0 }, 40, 50);
    assert_eq!(exclusion, Some(region(-30, 30)));
}

#[test]
fn the_chord_is_centred_on_the_platform() {
    assert_eq!(exclusion_at(Platform { x: 120, y: -7 }, 33, 50), Some(region(90, 150)));
    assert_eq!(exclusion_at(Platform { x: -120, y: 1000 }, 1004, 5), Some(region(-123, -117)));
}

#[test]
fn a_platform_at_the_height_of_the_line_excludes_its_whole_reach() {
    assert_eq!(exclusion_at(Platform { x: 10, y: 40 }, 40, 25), Some(region(-15, 35)));
}

#[test]
fn a_platform_out_of_reach_casts_no_exclusion() {
    assert_eq!(exclusion_at(Platform { x: 0, y: 0 }, 50, 50), None);
    assert_eq!(exclusion_at(Platform { x: 0, y: 0 }, 51, 50), None);
    assert_eq!(exclusion_at(Platform { x: 0, y: 0 }, i64::MAX, 50), None);
}

#[test]
fn a_platform_just_in_reach_casts_a_narrow_exclusion() {
    // 50 * 50 - 49 * 49 = 99, whose integer square root is 9.
    assert_eq!(exclusion_at(Platform { x: 0, y: 0 }, 49, 50), Some(region(-9, 9)));
}

#[test]
fn a_platform_far_above_the_line_casts_an_exclusion_without_width() {
    assert_eq!(exclusion_at(Platform { x: 7, y: 100 }, 50, 50), Some(region(7, 7)));
    assert_eq!(exclusion_at(Platform { x: 7, y: 1000 }, 50, 50), Some(region(7, 7)));
    assert_eq!(exclusion_at(Platform { x: 7, y: i64::MAX }, i64::MIN, 50), Some(region(7, 7)));
}

#[test]
fn a_platform_above_the_line_and_in_reach_casts_its_chord() {
    assert_eq!(exclusion_at(Platform { x: 0, y: 80 }, 40, 50), Some(region(-30, 30)));
}

#[test]
fn a_reach_of_zero_or_less_excludes_no_width() {
    assert_eq!(exclusion_at(Platform { x: 3, y: 10 }, 5, 0), Some(region(3, 3)));
    assert_eq!(exclusion_at(Platform { x: 3, y: 10 }, 10, 0), None);
    assert_eq!(exclusion_at(Platform { x: 3, y: 10 }, 2, -5), Some(region(3, 3)));
    assert_eq!(exclusion_at(Platform { x: 3, y: 10 }, 5, -5), None);
}

#[test]
fn the_largest_reach_is_computed_without_overflow() {
    let exclusion = exclusion_at(Platform { x: 0, y: 0 }, 0, i64::MAX);
    assert_eq!(exclusion, Some(region(-i64::MAX, i64::MAX)));
}

#[test]
fn integer_sqrt_rounds_down() {
    assert_eq!(integer_sqrt(0), 0);
    assert_eq!(integer_sqrt(1), 1);
    assert_eq!(integer_sqrt(2), 1);
    assert_eq!(integer_sqrt(3), 1);
    assert_eq!(integer_sqrt(4), 2);
    assert_eq!(integer_sqrt(8), 2);
    assert_eq!(integer_sqrt(9), 3);
    assert_eq!(integer_sqrt(899), 29);
    assert_eq!(integer_sqrt(900), 30);
    assert_eq!(integer_sqrt(901), 30);
    assert_eq!(integer_sqrt(1_000_000_000_000), 1_000_000);
}

#[test]
fn integer_sqrt_of_the_largest_numbers() {
    assert_eq!(integer_sqrt(u128::MAX), u64::MAX);
    let top = u64::MAX as u128;
    assert_eq!(integer_sqrt(top * top), u64::MAX);
    assert_eq!(integer_sqrt(top * top - 1), u64::MAX - 1);
    assert_eq!(integer_sqrt(1u128 << 126), 1u64 << 63);
}

#[test]
fn exclusions_come_in_the_order_of_the_platforms_and_skip_those_out_of_reach() {
    let platforms = vec![
        Platform { x: 60, y: 0 },
        Platform { x: 500, y: -500 },
        Platform { x: 20, y: 10 },
        Platform { x: -40, y: 40 },
    ];
    let exclusions = exclusions_for(&platforms, 40, 50);
    assert_eq!(exclusions, vec![region(30, 90), region(-20, 60), region(-90, 10)]);
}

#[test]
fn no_platforms_cast_no_exclusions() {
    assert_eq!(exclusions_for(&Vec::new(), 40, 50), Vec::<Region>::new());
}
