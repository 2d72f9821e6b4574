//! One spawn attempt: from the platforms in place to a spawn coordinate.

use crate::draw::sort_by_lower;
use crate::geometry::{all_reach_fits, exclusions_for, exclusions_of, Platform};
use crate::laws::{lemma_free_regions_clear, lemma_free_regions_empty, lemma_same_regions};
use crate::partition::{
    all_valid, blocked, clear_of, complements, disjoint_ascending, free_regions, has_point,
    sorting_of, within,
};
use crate::region::Region;
use crate::region_set::RegionSet;
use vstd::prelude::*;

verus! {

/// Holds a drawn reach distance to the bounds `[min_distance, max_distance]`.
pub fn clamp_reach(sample: i64, min_distance: i64, max_distance: i64) -> (reach: i64)
    requires
        min_distance <= max_distance,
    ensures
        reach == if sample < min_distance {
            min_distance
        } else if sample > max_distance {
            max_distance
        } else {
            sample
        },
        min_distance <= reach <= max_distance,
{
    if sample < min_distance {
        min_distance
    } else if sample > max_distance {
        max_distance
    } else {
        sample
    }
}

/// Computes the free regions of the spawn line `[lower_bound, upper_bound]`
/// at height `top_y`: what the exclusions of the platforms within `reach`
/// leave of it. The exclusions are sorted by their lower bounds and swept
/// once; they may overlap.
pub fn spawn_regions(
    platforms: &Vec<Platform>,
    lower_bound: i64,
    upper_bound: i64,
    top_y: i64,
    reach: i64,
) -> (free: RegionSet)
    requires
        lower_bound <= upper_bound,
        all_reach_fits(platforms@, reach),
    ensures
        exists|batch: Seq<Region>| #[trigger]
            sorting_of(batch, exclusions_of(platforms@, top_y, reach)) && free@ == free_regions(
                Region::spanning(lower_bound, upper_bound),
                batch,
            ),
        complements(
            free@,
            Region::spanning(lower_bound, upper_bound),
            exclusions_of(platforms@, top_y, reach),
        ),
        free@.len() == 0 <==> blocked(
            Region::spanning(lower_bound, upper_bound),
            exclusions_of(platforms@, top_y, reach),
        ),
        forall|point: int| #[trigger]
            has_point(free@, point) ==> lower_bound <= point <= upper_bound && clear_of(
                exclusions_of(platforms@, top_y, reach),
                point,
            ),
        within(free@, Region::spanning(lower_bound, upper_bound)),
        disjoint_ascending(free@),
        lower_bound < upper_bound ==> all_valid(free@),
{
    let ghost domain = Region::spanning(lower_bound, upper_bound);
    let mut exclusions = exclusions_for(platforms, top_y, reach);
    let ghost cast = exclusions@;
    sort_by_lower(&mut exclusions);
    let ghost batch = exclusions@;
    proof {
        assert(sorting_of(batch, cast));
        lemma_same_regions(cast, batch);
        lemma_free_regions_empty(domain, batch);
        assert forall|point: int| #[trigger]
            has_point(free_regions(domain, batch), point) implies lower_bound <= point
            <= upper_bound && clear_of(cast, point) by {
            lemma_free_regions_clear(domain, batch, point);
        }
    }
    RegionSet::with_sorted(lower_bound, upper_bound, exclusions)
}

/// Makes one spawn attempt: computes the free regions of the spawn line and
/// draws a coordinate from them. The coordinate lies on the spawn line and
/// strictly inside no platform's exclusion; there is none exactly where the
/// exclusions block the whole line.
pub fn spawn_coordinate(
    platforms: &Vec<Platform>,
    lower_bound: i64,
    upper_bound: i64,
    top_y: i64,
    reach: i64,
) -> (spot: Option<i64>)
    requires
        lower_bound <= upper_bound,
        all_reach_fits(platforms@, reach),
    ensures
        spot is None <==> blocked(
            Region::spanning(lower_bound, upper_bound),
            exclusions_of(platforms@, top_y, reach),
        ),
        spot matches Some(x) ==> lower_bound <= x <= upper_bound && clear_of(
            exclusions_of(platforms@, top_y, reach),
            x as int,
        ),
{
    let free = spawn_regions(platforms, lower_bound, upper_bound, top_y, reach);
    free.sample()
}

} // verus!
