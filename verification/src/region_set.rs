//! The free-space partition of a spawn line.

use crate::draw::{random_between, random_index};
use crate::laws::{
    lemma_free_regions_complement, lemma_free_regions_shape, lemma_free_regions_tiled,
    lemma_free_regions_width,
};
use crate::partition::{
    all_valid, complements, disjoint_ascending, exclude, free_regions, has_point, ordered, pieces,
    sorted_by_lower, sweep, tiles, total_width, within, Sweep,
};
use crate::region::Region;
use vstd::prelude::*;

verus! {

/// The open end of a partition under construction.
struct Builder {
    done: Vec<Region>,
    frontier: Option<Region>,
}

impl Builder {
    spec fn state(self) -> Sweep {
        Sweep { done: self.done@, frontier: self.frontier }
    }

    /// The two pieces of the frontier that `exclusion` leaves standing.
    fn exclusion_pair(&self, exclusion: Region) -> (pair: (Option<Region>, Option<Region>))
        ensures
            self.frontier matches Some(frontier) ==> pair == pieces(frontier, exclusion),
            self.frontier is None ==> pair == (None::<Region>, None::<Region>),
    {
        match self.frontier {
            Some(frontier) => (
                frontier.exclude_above_point(exclusion.lower),
                frontier.exclude_below_point(exclusion.upper),
            ),
            None => (None, None),
        }
    }

    /// Splits, shrinks or drops the frontier according to the pieces that
    /// `exclusion` leaves of it.
    fn apply_exclusion_to_frontier(&mut self, exclusion: Region)
        ensures
            final(self).state() == exclude(old(self).state(), exclusion),
    {
        match self.exclusion_pair(exclusion) {
            (Some(lower), Some(upper)) => {
                self.done.push(lower);
                self.frontier = Some(upper);
            },
            (Some(lower), None) => {
                self.frontier = Some(lower);
            },
            (None, Some(upper)) => {
                self.frontier = Some(upper);
            },
            (None, None) => {
                self.frontier = None;
            },
        }
    }
}

/// The free regions of one spawn line, in the order in which the sweep
/// finalised them. Every region in it has its bounds in order.
pub struct RegionSet {
    set: Vec<Region>,
}

impl View for RegionSet {
    type V = Seq<Region>;

    closed spec fn view(&self) -> Seq<Region> {
        self.set@
    }
}

impl Default for RegionSet {
    /// The empty set.
    fn default() -> (empty: Self)
        ensures
            empty@ == Seq::<Region>::empty(),
    {
        RegionSet { set: Vec::new() }
    }
}

impl RegionSet {
    #[verifier::type_invariant]
    spec fn bounds_in_order(self) -> bool {
        ordered(self.set@)
    }

    /// Builds the partition of `[lower_bound, upper_bound]` that is left after
    /// the exclusions in `sorted` have been applied in order, each to the open
    /// frontier only.
    ///
    /// The caller is expected to hand in exclusions that ascend by their lower
    /// bounds; the batch is taken as it comes. The first clause says what is
    /// built from any batch, the others what that amounts to for the batches
    /// a caller is expected to hand in.
    pub fn with_sorted(lower_bound: i64, upper_bound: i64, sorted: Vec<Region>) -> (free: Self)
        requires
            lower_bound <= upper_bound,
        ensures
            free@ == free_regions(Region::spanning(lower_bound, upper_bound), sorted@),
            within(free@, Region::spanning(lower_bound, upper_bound)),
            ordered(free@),
            free@.len() <= sorted@.len() + 1,
            lower_bound < upper_bound ==> all_valid(free@),
            ordered(sorted@) ==> disjoint_ascending(free@),
            ordered(sorted@) && sorted_by_lower(sorted@) ==> complements(
                free@,
                Region::spanning(lower_bound, upper_bound),
                sorted@,
            ),
            sorted@.len() == 0 ==> free@ == seq![Region::spanning(lower_bound, upper_bound)],
            ordered(sorted@) && disjoint_ascending(sorted@) && tiles(
                sorted@,
                Region::spanning(lower_bound, upper_bound),
            ) ==> free@.len() == 0,
            ordered(sorted@) && disjoint_ascending(sorted@) && within(
                sorted@,
                Region::spanning(lower_bound, upper_bound),
            ) ==> total_width(free@) + total_width(sorted@) == upper_bound - lower_bound,
    {
        let ghost domain = Region::spanning(lower_bound, upper_bound);
        let mut builder = Builder {
            done: Vec::new(),
            frontier: Some(Region { lower: lower_bound, upper: upper_bound }),
        };
        let mut i: usize = 0;
        while i < sorted.len()
            invariant
                i <= sorted.len(),
                builder.state() == sweep(domain, sorted@.take(i as int)),
            decreases sorted.len() - i,
        {
            proof {
                assert(sorted@.take(i + 1).drop_last() == sorted@.take(i as int));
            }
            builder.apply_exclusion_to_frontier(sorted[i]);
            i += 1;
        }
        let Builder { done, frontier } = builder;
        let mut set = done;
        match frontier {
            Some(region) => {
                set.push(region);
            },
            None => {},
        }
        proof {
            assert(sorted@.take(i as int) == sorted@);
            lemma_free_regions_shape(domain, sorted@);
            if ordered(sorted@) {
                if sorted_by_lower(sorted@) {
                    lemma_free_regions_complement(domain, sorted@);
                }
                if disjoint_ascending(sorted@) {
                    if tiles(sorted@, domain) {
                        lemma_free_regions_tiled(domain, sorted@);
                    }
                    if within(sorted@, domain) {
                        lemma_free_regions_width(domain, sorted@);
                    }
                }
            }
        }
        RegionSet { set }
    }

    /// The number of free regions.
    pub fn len(&self) -> (count: usize)
        ensures
            count == self@.len(),
    {
        self.set.len()
    }

    /// The free regions in order.
    pub fn regions(&self) -> (regions: &Vec<Region>)
        ensures
            regions@ == self@,
            ordered(self@),
    {
        proof {
            use_type_invariant(self);
        }
        &self.set
    }

    /// The region at `index`, if there is one.
    pub fn get(&self, index: usize) -> (region: Option<Region>)
        ensures
            region == if index < self@.len() {
                Some(self@[index as int])
            } else {
                None
            },
    {
        if index < self.set.len() {
            Some(self.set[index])
        } else {
            None
        }
    }

    /// Picks one of the free regions at random, by a draw of its index that
    /// takes no account of the widths; `None` where there is no free region.
    /// The draw is the generator's, so the contract says which regions can
    /// come back and not how often each does.
    pub fn random(&self) -> (region: Option<Region>)
        ensures
            region is None <==> self@.len() == 0,
            region matches Some(chosen) ==> self@.contains(chosen) && chosen.lower <= chosen.upper,
    {
        let len = self.set.len();
        if len > 0 {
            let random_index = random_index(len);
            proof {
                use_type_invariant(self);
            }
            self.get(random_index)
        } else {
            None
        }
    }

    /// Draws a spawn coordinate: a point of a region picked by `random`,
    /// at a bound or between them; `None` where there is no free region.
    pub fn sample(&self) -> (point: Option<i64>)
        ensures
            point is None <==> self@.len() == 0,
            point matches Some(x) ==> has_point(self@, x as int),
    {
        match self.random() {
            Some(region) => {
                let x = random_between(region.lower, region.upper);
                proof {
                    let i = choose|i: int| 0 <= i < self@.len() && self@[i] == region;
                    assert(self@[i].has_point(x as int));
                }
                Some(x)
            },
            None => None,
        }
    }
}

} // verus!
