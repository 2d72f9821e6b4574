//! The random draws and the sort that the library takes from outside. Verus
//! reads the contracts below and not the bodies: each contract is what the
//! documentation of the function called promises.

use crate::partition::sorted_by_lower;
use crate::region::Region;
use rand::Rng;
use vstd::prelude::*;

verus! {

/// Draws an index below `len` from the thread-local generator `rand::rng()`,
/// by `rand::Rng::random_range` on the range `0..len`. That call panics on an
/// empty range, hence the `requires`. Nothing is claimed of the distribution,
/// only that the index lies in the range. The generator is seeded from the
/// operating system when a thread first uses it, and `rand` panics if that
/// fails.
#[verifier::external_body]
pub(crate) fn random_index(len: usize) -> (index: usize)
    requires
        len > 0,
    ensures
        index < len,
{
    rand::rng().random_range(0..len)
}

/// Draws a coordinate from the thread-local generator `rand::rng()`, by
/// `rand::Rng::random_range` on the range `lower..=upper`. That call panics on
/// an empty range, hence the `requires`. Nothing is claimed of the
/// distribution, only that the coordinate lies in the range, at a bound or
/// between them. The generator is seeded as for `random_index`.
#[verifier::external_body]
pub(crate) fn random_between(lower: i64, upper: i64) -> (point: i64)
    requires
        lower <= upper,
    ensures
        lower <= point <= upper,
{
    rand::rng().random_range(lower..=upper)
}

/// Sorts regions by their lower bounds with `sort_unstable_by_key` of the
/// standard library's slices: afterwards the same regions, each as often as
/// before, stand in ascending order of `lower`. Regions with equal lower
/// bounds may come out in any order.
#[verifier::external_body]
pub(crate) fn sort_by_lower(regions: &mut Vec<Region>)
    ensures
        final(regions)@.to_multiset() == old(regions)@.to_multiset(),
        sorted_by_lower(final(regions)@),
{
    regions.sort_unstable_by_key(|region| region.lower);
}

} // verus!
