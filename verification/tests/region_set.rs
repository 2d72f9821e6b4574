use platform_spawn::region::Region;
use platform_spawn::region_set::RegionSet;

fn region(lower: i64, upper: i64) -> Region {
    Region { lower, upper }
}

fn width_sum(regions: &[Region]) -> i64 {
    regions.iter().map(|r| r.upper - r.lower).sum()
}

#[test]
fn two_exclusions_split_the_domain_in_three() {
    let free = RegionSet::with_sorted(0, 100, vec![region(20, 30), region(60, 70)]);
    assert_eq!(free.regions(), &vec![region(0, 20), region(30, 60), region(70, 100)]);
    assert_eq!(free.len(), 3);
}

#[test]
fn an_exclusion_about_zero_splits_the_domain_in_two() {
    let free = RegionSet::with_sorted(-50, 50, vec![region(-10, 10)]);
    assert_eq!(free.regions(), &vec![region(-50, -10), region(10, 50)]);
}

#[test]
fn an_exclusion_over_the_whole_domain_leaves_nothing() {
    let free = RegionSet::with_sorted(0, 100, vec![region(0, 100)]);
    assert_eq!(free.regions(), &Vec::<Region>::new());
    assert_eq!(free.len(), 0);
    assert_eq!(free.random(), None);
    assert_eq!(free.sample(), None);
}

#[test]
fn no_exclusions_leave_the_domain_itself() {
    let free = RegionSet::with_sorted(-3, 8, Vec::new());
    assert_eq!(free.regions(), &vec![region(-3, 8)]);
    let point = RegionSet::with_sorted(5, 5, Vec::new());
    assert_eq!(point.regions(), &vec![region(5, 5)]);
}

#[test]
fn exclusions_that_tile_the_domain_leave_nothing() {
    let free = RegionSet::with_sorted(0, 100, vec![region(0, 40), region(40, 41), region(41, 100)]);
    assert_eq!(free.len(), 0);
    let with_points = RegionSet::with_sorted(
        0,
        100,
        vec![region(0, 0), region(0, 50), region(50, 50), region(50, 100), region(100, 100)],
    );
    assert_eq!(with_points.len(), 0);
    let point = RegionSet::with_sorted(7, 7, vec![region(7, 7)]);
    assert_eq!(point.len(), 0);
}

#[test]
fn widths_of_free_regions_and_exclusions_add_up_to_the_domain() {
    let batches: Vec<Vec<Region>> = vec![
        vec![],
        vec![region(20, 30), region(60, 70)],
        vec![region(0, 10), region(10, 25), region(90, 100)],
        vec![region(5, 5), region(5, 6), region(50, 100), region(100, 100)],
        vec![region(0, 100)],
        vec![region(1, 99)],
    ];
    for batch in batches {
        let excluded = width_sum(&batch);
        let free = RegionSet::with_sorted(0, 100, batch);
        assert_eq!(width_sum(free.regions()) + excluded, 100);
    }
}

/// A small linear congruential generator, so that the batches below are the
/// same on every run.
fn next(state: &mut u64) -> i64 {
    *state = state.wrapping_mul(6364136223846793005).wrapping_add(1442695040888963407);
    ((*state >> 33) % 41) as i64
}

#[test]
fn generated_batches_leave_sorted_disjoint_regions_of_the_right_width() {
    let mut state: u64 = 7;
    for _ in 0..500 {
        // Ascending, disjoint exclusions inside [0, 1000], some without width
        // and some touching their neighbours.
        let mut batch: Vec<Region> = Vec::new();
        let mut at: i64 = next(&mut state);
        loop {
            let upper = at + next(&mut state);
            if upper > 1000 {
                break;
            }
            batch.push(region(at, upper));
            at = upper + next(&mut state);
        }
        let excluded = width_sum(&batch);
        let free = RegionSet::with_sorted(0, 1000, batch.clone());
        let regions = free.regions();
        assert_eq!(width_sum(regions) + excluded, 1000);
        for r in regions.iter() {
            assert!(0 <= r.lower && r.lower < r.upper && r.upper <= 1000);
            for e in batch.iter() {
                assert!(e.upper <= r.lower || r.upper <= e.lower);
            }
        }
        for pair in regions.windows(2) {
            assert!(pair[0].upper <= pair[1].lower);
        }
    }
}

#[test]
fn widths_add_up_to_exactly_the_expected_free_width() {
    let free = RegionSet::with_sorted(-1000, 1000, vec![region(-1000, -400), region(0, 1), region(999, 1000)]);
    assert_eq!(free.regions(), &vec![region(-400, 0), region(1, 999)]);
    assert_eq!(width_sum(free.regions()), 1398);
}

#[test]
fn an_exclusion_at_the_lower_end_shrinks_the_frontier_from_below() {
    let free = RegionSet::with_sorted(0, 100, vec![region(-20, 30)]);
    assert_eq!(free.regions(), &vec![region(30, 100)]);
}

#[test]
fn an_exclusion_at_the_upper_end_shrinks_the_frontier_from_above() {
    let free = RegionSet::with_sorted(0, 100, vec![region(70, 130)]);
    assert_eq!(free.regions(), &vec![region(0, 70)]);
}

#[test]
fn an_exclusion_outside_the_domain_changes_nothing() {
    let left = RegionSet::with_sorted(0, 100, vec![region(-30, -10)]);
    assert_eq!(left.regions(), &vec![region(0, 100)]);
    let right = RegionSet::with_sorted(0, 100, vec![region(100, 140)]);
    assert_eq!(right.regions(), &vec![region(0, 100)]);
}

#[test]
fn an_exclusion_without_width_splits_where_it_stands() {
    let free = RegionSet::with_sorted(0, 100, vec![region(50, 50)]);
    assert_eq!(free.regions(), &vec![region(0, 50), region(50, 100)]);
}

#[test]
fn overlapping_exclusions_in_ascending_order_are_swept_correctly() {
    let free = RegionSet::with_sorted(0, 100, vec![region(10, 30), region(20, 40), region(25, 35), region(60, 70)]);
    assert_eq!(free.regions(), &vec![region(0, 10), region(40, 60), region(70, 100)]);
}

#[test]
fn a_consumed_frontier_is_never_opened_again() {
    // The last exclusion is out of order. It finds no frontier and is not
    // applied to the region that was finalised before.
    let free = RegionSet::with_sorted(0, 100, vec![region(50, 60), region(60, 100), region(0, 30)]);
    assert_eq!(free.regions(), &vec![region(0, 50)]);
}

#[test]
fn a_frontier_shrunk_from_above_stays_open() {
    let free = RegionSet::with_sorted(0, 100, vec![region(40, 100), region(10, 20)]);
    assert_eq!(free.regions(), &vec![region(0, 10), region(20, 40)]);
}

#[test]
fn a_domain_without_width_is_dropped_by_any_exclusion() {
    let free = RegionSet::with_sorted(5, 5, vec![region(500, 500)]);
    assert_eq!(free.len(), 0);
}

#[test]
fn get_returns_the_region_at_an_index_and_none_past_the_end() {
    let free = RegionSet::with_sorted(0, 100, vec![region(20, 30), region(60, 70)]);
    assert_eq!(free.get(0), Some(region(0, 20)));
    assert_eq!(free.get(1), Some(region(30, 60)));
    assert_eq!(free.get(2), Some(region(70, 100)));
    assert_eq!(free.get(3), None);
    assert_eq!(free.get(usize::MAX), None);
}

#[test]
fn the_default_set_is_empty() {
    let empty = RegionSet::default();
    assert_eq!(empty.len(), 0);
    assert_eq!(empty.random(), None);
    assert_eq!(empty.sample(), None);
}

#[test]
fn random_returns_one_of_the_free_regions() {
    let free = RegionSet::with_sorted(0, 100, vec![region(20, 30), region(60, 70)]);
    let mut seen = [false; 3];
    for _ in 0..400 {
        let chosen = free.random().unwrap();
        let index = free.regions().iter().position(|r| *r == chosen).unwrap();
        seen[index] = true;
    }
    assert_eq!(seen, [true, true, true]);
}

#[test]
fn random_on_a_single_region_returns_it() {
    let free = RegionSet::with_sorted(0, 100, Vec::new());
    for _ in 0..20 {
        assert_eq!(free.random(), Some(region(0, 100)));
    }
}

#[test]
fn sample_returns_a_point_of_a_free_region() {
    let free = RegionSet::with_sorted(0, 100, vec![region(20, 30), region(60, 70)]);
    for _ in 0..400 {
        let x = free.sample().unwrap();
        assert!(free.regions().iter().any(|r| r.lower <= x && x <= r.upper));
        assert!(!(20 < x && x < 30));
        assert!(!(60 < x && x < 70));
    }
}

#[test]
fn sample_draws_more_than_the_bounds_of_a_region() {
    let free = RegionSet::with_sorted(-1_000_000, 1_000_000, Vec::new());
    let mut draws: Vec<i64> = Vec::new();
    for _ in 0..64 {
        let x = free.sample().unwrap();
        assert!(-1_000_000 <= x && x <= 1_000_000);
        draws.push(x);
    }
    assert!(draws.iter().any(|x| *x != -1_000_000));
    assert!(draws.iter().any(|x| *x != 1_000_000));
    assert!(draws.iter().any(|x| *x != draws[0]));
}

#[test]
fn sample_of_a_region_without_width_is_its_point() {
    let free = RegionSet::with_sorted(9, 9, Vec::new());
    assert_eq!(free.sample(), Some(9));
}
