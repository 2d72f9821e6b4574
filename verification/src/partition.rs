//! The mathematical model of the free-space partition: a single left-to-right
//! sweep that narrows or splits one open frontier region per exclusion.

use crate::region::Region;
use vstd::prelude::*;

verus! {

/// A sweep in progress: the regions already finalised, in order, and the
/// frontier that later exclusions may still narrow, if one is left.
pub struct Sweep {
    pub done: Seq<Region>,
    pub frontier: Option<Region>,
}

/// What is left of `frontier` on either side of `exclusion`: the piece below
/// the exclusion's lower bound and the piece above its upper bound.
pub open spec fn pieces(frontier: Region, exclusion: Region) -> (Option<Region>, Option<Region>) {
    (frontier.below(exclusion.lower), frontier.above(exclusion.upper))
}

/// Applies one exclusion to the frontier and never to a finalised region.
pub open spec fn exclude(state: Sweep, exclusion: Region) -> Sweep {
    match state.frontier {
        None => state,
        Some(frontier) => match pieces(frontier, exclusion) {
            (Some(lower), Some(upper)) => Sweep {
                done: state.done.push(lower),
                frontier: Some(upper),
            },
            (Some(lower), None) => Sweep { done: state.done, frontier: Some(lower) },
            (None, Some(upper)) => Sweep { done: state.done, frontier: Some(upper) },
            (None, None) => Sweep { done: state.done, frontier: None },
        },
    }
}

/// The sweep over `domain` after all of `exclusions` have been applied in order.
pub open spec fn sweep(domain: Region, exclusions: Seq<Region>) -> Sweep
    decreases exclusions.len(),
{
    if exclusions.len() == 0 {
        Sweep { done: Seq::empty(), frontier: Some(domain) }
    } else {
        exclude(sweep(domain, exclusions.drop_last()), exclusions.last())
    }
}

/// The finalised regions of a sweep followed by its frontier, if one is left.
pub open spec fn finished(state: Sweep) -> Seq<Region> {
    match state.frontier {
        Some(frontier) => state.done.push(frontier),
        None => state.done,
    }
}

/// The free regions of `domain` once `exclusions` have been applied in order.
pub open spec fn free_regions(domain: Region, exclusions: Seq<Region>) -> Seq<Region> {
    finished(sweep(domain, exclusions))
}

/// Every region has its bounds in order, `lower <= upper`.
pub open spec fn ordered(regions: Seq<Region>) -> bool {
    forall|i: int| 0 <= i < regions.len() ==> (#[trigger] regions[i]).lower <= regions[i].upper
}

/// Every region has positive width.
pub open spec fn all_valid(regions: Seq<Region>) -> bool {
    forall|i: int| 0 <= i < regions.len() ==> (#[trigger] regions[i]).valid()
}

/// The regions ascend by their lower bounds.
pub open spec fn sorted_by_lower(regions: Seq<Region>) -> bool {
    forall|i: int, j: int|
        0 <= i < j < regions.len() ==> (#[trigger] regions[i]).lower <= (#[trigger] regions[j]).lower
}

/// `batch` holds the regions of `regions`, each as often as they do, in
/// ascending order of their lower bounds.
pub open spec fn sorting_of(batch: Seq<Region>, regions: Seq<Region>) -> bool {
    batch.to_multiset() == regions.to_multiset() && sorted_by_lower(batch)
}

/// Each region ends before any later one begins: they ascend and share at
/// most end points.
pub open spec fn disjoint_ascending(regions: Seq<Region>) -> bool {
    forall|i: int, j: int|
        0 <= i < j < regions.len() ==> (#[trigger] regions[i]).upper <= (#[trigger] regions[j]).lower
}

/// Every region lies inside `domain`.
pub open spec fn within(regions: Seq<Region>, domain: Region) -> bool {
    forall|i: int|
        0 <= i < regions.len() ==> domain.lower <= (#[trigger] regions[i]).lower && regions[i].upper
            <= domain.upper
}

/// The regions leave no gap between one and the next, start where `domain`
/// starts and end where it ends. Of regions that are `ordered` and
/// `disjoint_ascending` this says that their union is exactly `domain`.
pub open spec fn tiles(regions: Seq<Region>, domain: Region) -> bool {
    &&& regions.len() > 0
    &&& regions.first().lower == domain.lower
    &&& regions.last().upper == domain.upper
    &&& forall|i: int|
        0 <= i < regions.len() - 1 ==> regions[i + 1].lower <= (#[trigger] regions[i]).upper
}

/// The sum of the widths of the regions.
pub open spec fn total_width(regions: Seq<Region>) -> int
    decreases regions.len(),
{
    if regions.len() == 0 {
        0
    } else {
        total_width(regions.drop_last()) + regions.last().width()
    }
}

/// Whether the unit segment `[cell, cell + 1]` lies inside one of the regions.
pub open spec fn covers(regions: Seq<Region>, cell: int) -> bool {
    exists|i: int| 0 <= i < regions.len() && (#[trigger] regions[i]).holds(cell)
}

/// `free` covers exactly those unit segments of `domain` that no exclusion
/// covers.
pub open spec fn complements(free: Seq<Region>, domain: Region, exclusions: Seq<Region>) -> bool {
    forall|cell: int| #[trigger]
        covers(free, cell) <==> domain.holds(cell) && !covers(exclusions, cell)
}

/// Whether `point` lies in one of the regions, at a bound or between them.
pub open spec fn has_point(regions: Seq<Region>, point: int) -> bool {
    exists|i: int| 0 <= i < regions.len() && (#[trigger] regions[i]).has_point(point)
}

/// `point` lies strictly inside none of the regions.
pub open spec fn clear_of(regions: Seq<Region>, point: int) -> bool {
    forall|i: int|
        0 <= i < regions.len() ==> !((#[trigger] regions[i]).lower < point < regions[i].upper)
}

/// Nothing of `domain` is left free by `exclusions`: every unit segment of
/// the domain lies in an exclusion or, where the domain has no width, there
/// is an exclusion at all.
pub open spec fn blocked(domain: Region, exclusions: Seq<Region>) -> bool {
    if domain.valid() {
        forall|cell: int| domain.holds(cell) ==> #[trigger] covers(exclusions, cell)
    } else {
        exclusions.len() > 0
    }
}

} // verus!
