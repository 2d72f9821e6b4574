//! What holds of the free regions that a sweep leaves: their shape, the
//! segments they cover, their widths, and when none is left.

use crate::partition::{
    all_valid, blocked, clear_of, complements, covers, disjoint_ascending, exclude, finished,
    free_regions, has_point, ordered, pieces, sorted_by_lower, sweep, tiles, total_width, within,
    Sweep,
};
use crate::region::Region;
use vstd::prelude::*;

verus! {

/// A batch without its last exclusion is still what the whole batch was.
proof fn lemma_drop_last_batch(exclusions: Seq<Region>, domain: Region)
    requires
        exclusions.len() > 0,
    ensures
        ordered(exclusions) ==> ordered(exclusions.drop_last()),
        sorted_by_lower(exclusions) ==> sorted_by_lower(exclusions.drop_last()),
        disjoint_ascending(exclusions) ==> disjoint_ascending(exclusions.drop_last()),
        within(exclusions, domain) ==> within(exclusions.drop_last(), domain),
{
    let earlier = exclusions.drop_last();
    assert forall|i: int| 0 <= i < earlier.len() implies #[trigger] earlier[i] == exclusions[i] by {}
}

proof fn lemma_covers_push(regions: Seq<Region>, last: Region, cell: int)
    ensures
        covers(regions.push(last), cell) <==> covers(regions, cell) || last.holds(cell),
{
    let longer = regions.push(last);
    if covers(regions, cell) {
        let i = choose|i: int| 0 <= i < regions.len() && (#[trigger] regions[i]).holds(cell);
        assert(longer[i].holds(cell));
    }
    if last.holds(cell) {
        assert(longer[regions.len() as int].holds(cell));
    }
    if covers(longer, cell) {
        let i = choose|i: int| 0 <= i < longer.len() && (#[trigger] longer[i]).holds(cell);
        assert(i < regions.len() ==> regions[i].holds(cell));
    }
}

proof fn lemma_covers_finished(state: Sweep, cell: int)
    ensures
        covers(finished(state), cell) <==> covers(state.done, cell) || (state.frontier matches Some(
            frontier,
        ) && frontier.holds(cell)),
{
    match state.frontier {
        Some(frontier) => lemma_covers_push(state.done, frontier, cell),
        None => {},
    }
}

/// What every sweep over `domain` keeps: finalised regions of positive width
/// inside the domain, and a frontier inside the domain that is of positive
/// width or still the untouched domain.
spec fn tidy(state: Sweep, domain: Region) -> bool {
    &&& all_valid(state.done)
    &&& within(state.done, domain)
    &&& state.frontier matches Some(frontier) ==> {
        &&& domain.lower <= frontier.lower <= frontier.upper <= domain.upper
        &&& frontier.valid() || frontier == domain
    }
}

proof fn lemma_exclude_tidy(state: Sweep, domain: Region, exclusion: Region)
    requires
        tidy(state, domain),
    ensures
        tidy(exclude(state, exclusion), domain),
{
    let next = exclude(state, exclusion);
    assert forall|i: int| 0 <= i < next.done.len() implies (#[trigger] next.done[i]).valid()
        && domain.lower <= next.done[i].lower && next.done[i].upper <= domain.upper by {
        assert(i < state.done.len() ==> next.done[i] == state.done[i]);
    }
}

proof fn lemma_exclude_ascending(state: Sweep, exclusion: Region)
    requires
        disjoint_ascending(finished(state)),
        exclusion.lower <= exclusion.upper,
    ensures
        disjoint_ascending(finished(exclude(state, exclusion))),
{
    let before = finished(state);
    let after = finished(exclude(state, exclusion));
    match state.frontier {
        None => {},
        Some(frontier) => {
            let n = state.done.len() as int;
            assert forall|i: int, j: int| 0 <= i < j < after.len() implies (#[trigger] after[i]).upper
                <= (#[trigger] after[j]).lower by {
                if j < n {
                    assert(after[i] == before[i] && after[j] == before[j]);
                } else if i < n {
                    assert(before[i].upper <= before[n].lower);
                }
            }
        },
    }
}

proof fn lemma_sweep_shape(domain: Region, exclusions: Seq<Region>)
    requires
        domain.lower <= domain.upper,
    ensures
        tidy(sweep(domain, exclusions), domain),
        finished(sweep(domain, exclusions)).len() <= exclusions.len() + 1,
        ordered(exclusions) ==> disjoint_ascending(finished(sweep(domain, exclusions))),
    decreases exclusions.len(),
{
    if exclusions.len() > 0 {
        let earlier = exclusions.drop_last();
        lemma_sweep_shape(domain, earlier);
        lemma_exclude_tidy(sweep(domain, earlier), domain, exclusions.last());
        if ordered(exclusions) {
            lemma_drop_last_batch(exclusions, domain);
            lemma_exclude_ascending(sweep(domain, earlier), exclusions.last());
        }
    }
}

/// Free regions lie inside the domain with their bounds in order; there is
/// at most one more of them than there are exclusions; they have positive
/// width unless the domain has none; and where the exclusions are `ordered`
/// they ascend disjointly.
pub proof fn lemma_free_regions_shape(domain: Region, exclusions: Seq<Region>)
    requires
        domain.lower <= domain.upper,
    ensures
        within(free_regions(domain, exclusions), domain),
        free_regions(domain, exclusions).len() <= exclusions.len() + 1,
        ordered(free_regions(domain, exclusions)),
        domain.valid() ==> all_valid(free_regions(domain, exclusions)),
        ordered(exclusions) ==> disjoint_ascending(free_regions(domain, exclusions)),
{
    lemma_sweep_shape(domain, exclusions);
    let state = sweep(domain, exclusions);
    let free = free_regions(domain, exclusions);
    assert forall|i: int| 0 <= i < free.len() implies domain.lower <= (#[trigger] free[i]).lower
        <= free[i].upper <= domain.upper && (domain.valid() ==> free[i].valid()) by {
        assert(i < state.done.len() ==> free[i] == state.done[i]);
    }
}

proof fn lemma_sweep_complement(domain: Region, exclusions: Seq<Region>)
    requires
        domain.lower <= domain.upper,
        ordered(exclusions),
        sorted_by_lower(exclusions),
    ensures
        exclusions.len() > 0 ==> forall|i: int|
            0 <= i < sweep(domain, exclusions).done.len() ==> (#[trigger] sweep(
                domain,
                exclusions,
            ).done[i]).upper <= exclusions.last().lower,
        complements(finished(sweep(domain, exclusions)), domain, exclusions),
    decreases exclusions.len(),
{
    let state = sweep(domain, exclusions);
    if exclusions.len() == 0 {
        assert forall|cell: int| #[trigger]
            covers(finished(state), cell) <==> domain.holds(cell) && !covers(
                exclusions,
                cell,
            ) by {
            lemma_covers_finished(state, cell);
        }
    } else {
        let earlier = exclusions.drop_last();
        let exclusion = exclusions.last();
        let before = sweep(domain, earlier);
        lemma_drop_last_batch(exclusions, domain);
        lemma_sweep_complement(domain, earlier);
        // What was finalised earlier ends where an earlier exclusion began,
        // and no later exclusion begins before that.
        assert forall|i: int| 0 <= i < before.done.len() implies (#[trigger] before.done[i]).upper
            <= exclusion.lower by {
            assert(earlier.last().lower <= exclusion.lower);
        }
        assert forall|i: int| 0 <= i < state.done.len() implies (#[trigger] state.done[i]).upper
            <= exclusion.lower by {
            assert(i < before.done.len() ==> state.done[i] == before.done[i]);
        }
        assert(exclusions == earlier.push(exclusion));
        assert forall|cell: int| #[trigger]
            covers(finished(state), cell) <==> domain.holds(cell) && !covers(
                exclusions,
                cell,
            ) by {
            lemma_covers_finished(state, cell);
            lemma_covers_finished(before, cell);
            lemma_covers_push(earlier, exclusion, cell);
            if covers(before.done, cell) {
                let i = choose|i: int|
                    0 <= i < before.done.len() && (#[trigger] before.done[i]).holds(cell);
                assert(!exclusion.holds(cell));
            }
            match before.frontier {
                None => {},
                Some(frontier) => {
                    match pieces(frontier, exclusion) {
                        (Some(lower), Some(_)) => {
                            lemma_covers_push(before.done, lower, cell);
                        },
                        _ => {},
                    }
                },
            }
        }
    }
}

/// Where the exclusions are `ordered` and ascend by their lower bounds, the
/// free regions hold exactly those unit segments of the domain that lie in no
/// exclusion. The exclusions may overlap.
pub proof fn lemma_free_regions_complement(domain: Region, exclusions: Seq<Region>)
    requires
        domain.lower <= domain.upper,
        ordered(exclusions),
        sorted_by_lower(exclusions),
    ensures
        complements(free_regions(domain, exclusions), domain, exclusions),
{
    lemma_sweep_complement(domain, exclusions);
}

/// The width of the frontier, or zero when none is left.
spec fn frontier_width(state: Sweep) -> int {
    match state.frontier {
        Some(frontier) => frontier.width(),
        None => 0,
    }
}

/// Where the exclusions processed so far end: the upper bound of the last
/// one, or the domain's lower bound when there is none.
spec fn cursor(domain: Region, exclusions: Seq<Region>) -> int {
    if exclusions.len() == 0 {
        domain.lower as int
    } else {
        exclusions.last().upper as int
    }
}

proof fn lemma_sweep_widths(domain: Region, exclusions: Seq<Region>)
    requires
        domain.lower <= domain.upper,
        ordered(exclusions),
        disjoint_ascending(exclusions),
        within(exclusions, domain),
    ensures
        ({
            let state = sweep(domain, exclusions);
            let reached = cursor(domain, exclusions);
            &&& domain.lower <= reached <= domain.upper
            &&& total_width(state.done) + frontier_width(state) + total_width(exclusions)
                == domain.width()
            &&& reached < domain.upper ==> state.frontier == Some(
                Region { lower: reached as i64, upper: domain.upper },
            )
            &&& state.frontier matches Some(frontier) ==> frontier.lower <= frontier.upper
                <= domain.upper
        }),
    decreases exclusions.len(),
{
    if exclusions.len() > 0 {
        let earlier = exclusions.drop_last();
        let exclusion = exclusions.last();
        lemma_drop_last_batch(exclusions, domain);
        lemma_sweep_widths(domain, earlier);
        let before = sweep(domain, earlier);
        let state = sweep(domain, exclusions);
        assert(cursor(domain, earlier) <= exclusion.lower) by {
            if earlier.len() > 0 {
                assert(earlier.last().upper <= exclusion.lower);
            }
        }
        assert(state.done == before.done || (state.done.len() > 0 && state.done.drop_last()
            == before.done));
    }
}

/// The widths of the free regions and of the exclusions add up to the width
/// of the domain, where the exclusions are `ordered`, ascend disjointly and
/// lie inside the domain.
pub proof fn lemma_free_regions_width(domain: Region, exclusions: Seq<Region>)
    requires
        domain.lower <= domain.upper,
        ordered(exclusions),
        disjoint_ascending(exclusions),
        within(exclusions, domain),
    ensures
        total_width(free_regions(domain, exclusions)) + total_width(exclusions) == domain.width(),
{
    lemma_sweep_widths(domain, exclusions);
    let state = sweep(domain, exclusions);
    match state.frontier {
        Some(frontier) => {
            assert(state.done.push(frontier).drop_last() == state.done);
        },
        None => {},
    }
}

proof fn lemma_sweep_tiled(domain: Region, exclusions: Seq<Region>)
    requires
        domain.lower <= domain.upper,
        exclusions.len() > 0,
        exclusions.first().lower == domain.lower,
        forall|i: int|
            0 <= i < exclusions.len() ==> (#[trigger] exclusions[i]).lower <= exclusions[i].upper
                <= domain.upper,
        forall|i: int|
            0 <= i < exclusions.len() - 1 ==> exclusions[i + 1].lower == (
            #[trigger] exclusions[i]).upper,
    ensures
        ({
            let state = sweep(domain, exclusions);
            let reached = exclusions.last().upper;
            &&& state.done.len() == 0
            &&& state.frontier == if reached < domain.upper {
                Some(Region { lower: reached, upper: domain.upper })
            } else {
                None
            }
        }),
    decreases exclusions.len(),
{
    let earlier = exclusions.drop_last();
    let exclusion = exclusions.last();
    if earlier.len() > 0 {
        assert forall|i: int| 0 <= i < earlier.len() implies #[trigger] earlier[i] == exclusions[i] by {}
        lemma_sweep_tiled(domain, earlier);
        assert(exclusion.lower == earlier.last().upper);
    } else {
        assert(sweep(domain, earlier) == (Sweep { done: Seq::empty(), frontier: Some(domain) }));
    }
}

/// A batch of exclusions that is `ordered`, ascends disjointly and has exactly
/// the domain as its union leaves no free region.
pub proof fn lemma_free_regions_tiled(domain: Region, exclusions: Seq<Region>)
    requires
        domain.lower <= domain.upper,
        ordered(exclusions),
        disjoint_ascending(exclusions),
        tiles(exclusions, domain),
    ensures
        free_regions(domain, exclusions) == Seq::<Region>::empty(),
{
    // Each exclusion ends no later than the last one, and begins exactly
    // where the one before it ended.
    assert forall|i: int| 0 <= i < exclusions.len() implies (#[trigger] exclusions[i]).lower
        <= exclusions[i].upper <= domain.upper by {
        assert(i < exclusions.len() - 1 ==> exclusions[i].upper <= exclusions.last().lower);
    }
    assert forall|i: int| 0 <= i < exclusions.len() - 1 implies exclusions[i + 1].lower == (
    #[trigger] exclusions[i]).upper by {
        assert(exclusions[i].upper <= exclusions[i + 1].lower);
    }
    lemma_sweep_tiled(domain, exclusions);
}

proof fn lemma_sweep_point_domain(domain: Region, exclusions: Seq<Region>)
    requires
        domain.lower == domain.upper,
        exclusions.len() > 0,
    ensures
        sweep(domain, exclusions) == (Sweep { done: Seq::empty(), frontier: None }),
    decreases exclusions.len(),
{
    let earlier = exclusions.drop_last();
    if earlier.len() > 0 {
        lemma_sweep_point_domain(domain, earlier);
    } else {
        assert(sweep(domain, earlier) == (Sweep { done: Seq::empty(), frontier: Some(domain) }));
    }
}

/// No free region is left exactly where the exclusions block the domain, for
/// exclusions that are `ordered` and ascend by their lower bounds.
pub proof fn lemma_free_regions_empty(domain: Region, exclusions: Seq<Region>)
    requires
        domain.lower <= domain.upper,
        ordered(exclusions),
        sorted_by_lower(exclusions),
    ensures
        free_regions(domain, exclusions).len() == 0 <==> blocked(domain, exclusions),
{
    let free = free_regions(domain, exclusions);
    if domain.valid() {
        lemma_free_regions_shape(domain, exclusions);
        lemma_free_regions_complement(domain, exclusions);
        if free.len() > 0 {
            let cell = free[0].lower as int;
            assert(free[0].holds(cell));
            assert(covers(free, cell));
        } else {
            assert forall|cell: int| domain.holds(cell) implies #[trigger] covers(
                exclusions,
                cell,
            ) by {
                assert(!covers(free, cell));
            }
        }
    } else {
        if exclusions.len() > 0 {
            lemma_sweep_point_domain(domain, exclusions);
        }
    }
}

/// A point of a free region lies in the domain and strictly inside no
/// exclusion, for exclusions that are `ordered` and ascend by their lower
/// bounds.
pub proof fn lemma_free_regions_clear(domain: Region, exclusions: Seq<Region>, point: int)
    requires
        domain.lower <= domain.upper,
        ordered(exclusions),
        sorted_by_lower(exclusions),
        has_point(free_regions(domain, exclusions), point),
    ensures
        domain.has_point(point),
        clear_of(exclusions, point),
{
    let free = free_regions(domain, exclusions);
    let k = choose|k: int| 0 <= k < free.len() && (#[trigger] free[k]).has_point(point);
    lemma_free_regions_shape(domain, exclusions);
    lemma_free_regions_complement(domain, exclusions);
    if domain.valid() {
        // A unit segment of the free region that touches the point: an
        // exclusion with the point strictly inside would hold it too.
        let cell = if point > free[k].lower { point - 1 } else { point };
        assert(free[k].holds(cell));
        assert(covers(free, cell));
        assert forall|i: int| 0 <= i < exclusions.len() implies !((#[trigger] exclusions[i]).lower
            < point < exclusions[i].upper) by {
            assert(exclusions[i].lower < point < exclusions[i].upper ==> exclusions[i].holds(cell));
        }
    } else {
        if exclusions.len() > 0 {
            lemma_sweep_point_domain(domain, exclusions);
        }
    }
}

/// Two sequences that hold the same regions, in whatever order, are of one
/// length, cover the same unit segments, and are `ordered`, clear of a point
/// or blocking a domain together.
pub proof fn lemma_same_regions(left: Seq<Region>, right: Seq<Region>)
    requires
        left.to_multiset() == right.to_multiset(),
    ensures
        left.len() == right.len(),
        ordered(left) <==> ordered(right),
        forall|cell: int| #[trigger] covers(left, cell) <==> covers(right, cell),
        forall|point: int| #[trigger] clear_of(left, point) <==> clear_of(right, point),
        forall|domain: Region| #[trigger] blocked(domain, left) <==> blocked(domain, right),
{
    left.to_multiset_ensures();
    right.to_multiset_ensures();
    assert forall|i: int| 0 <= i < left.len() implies right.contains(#[trigger] left[i]) by {
        assert(left.to_multiset().count(left[i]) > 0);
    }
    assert forall|i: int| 0 <= i < right.len() implies left.contains(#[trigger] right[i]) by {
        assert(right.to_multiset().count(right[i]) > 0);
    }
    lemma_contained(left, right);
    lemma_contained(right, left);
}

proof fn lemma_contained(left: Seq<Region>, right: Seq<Region>)
    requires
        forall|i: int| 0 <= i < left.len() ==> right.contains(#[trigger] left[i]),
    ensures
        ordered(right) ==> ordered(left),
        forall|cell: int| #[trigger] covers(left, cell) ==> covers(right, cell),
        forall|point: int| #[trigger] clear_of(right, point) ==> clear_of(left, point),
        forall|domain: Region| #[trigger] blocked(domain, left) ==> blocked(domain, right),
{
    if ordered(right) {
        assert forall|i: int| 0 <= i < left.len() implies (#[trigger] left[i]).lower
            <= left[i].upper by {
            let j = choose|j: int| 0 <= j < right.len() && right[j] == left[i];
            assert(right[j].lower <= right[j].upper);
        }
    }
    assert forall|cell: int| #[trigger] covers(left, cell) implies covers(right, cell) by {
        let i = choose|i: int| 0 <= i < left.len() && (#[trigger] left[i]).holds(cell);
        let j = choose|j: int| 0 <= j < right.len() && right[j] == left[i];
        assert(right[j].holds(cell));
    }
    assert forall|domain: Region| #[trigger] blocked(domain, left) implies blocked(
        domain,
        right,
    ) by {
        if domain.valid() {
            assert forall|cell: int| domain.holds(cell) implies #[trigger] covers(right, cell) by {
                assert(covers(left, cell));
            }
        } else {
            assert(right.contains(left[0]));
        }
    }
    assert forall|point: int| #[trigger] clear_of(right, point) implies clear_of(left, point) by {
        assert forall|i: int| 0 <= i < left.len() implies !((#[trigger] left[i]).lower < point
            < left[i].upper) by {
            let j = choose|j: int| 0 <= j < right.len() && right[j] == left[i];
            assert(!(right[j].lower < point < right[j].upper));
        }
    }
}

} // verus!
