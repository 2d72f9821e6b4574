//! From platform positions to exclusions on the spawn line.
//!
//! A platform keeps new platforms out of a circle of radius `reach` around
//! itself. On the spawn line that circle cuts out a chord, and the chord is
//! the platform's exclusion.

use crate::region::Region;
use vstd::prelude::*;

verus! {

/// The position of a platform that is already placed.
#[derive(Copy, Clone, PartialEq, Eq, Debug, Structural)]
pub struct Platform {
    pub x: i64,
    pub y: i64,
}

/// `root` is the integer square root of `n`: the largest integer whose square
/// does not exceed `n`.
pub open spec fn is_sqrt(n: int, root: int) -> bool {
    0 <= root && root * root <= n < (root + 1) * (root + 1)
}

/// The integer square root of `n`, for `n >= 0`.
pub open spec fn int_sqrt(n: int) -> int {
    choose|root: int| is_sqrt(n, root)
}

/// A number has at most one integer square root, so any `root` that passes
/// `is_sqrt` is `int_sqrt(n)`.
pub proof fn lemma_int_sqrt_unique(n: int, root: int)
    requires
        is_sqrt(n, root),
    ensures
        int_sqrt(n) == root,
{
    let other = int_sqrt(n);
    assert(is_sqrt(n, other));
    assert(other == root) by (nonlinear_arith)
        requires
            is_sqrt(n, other),
            is_sqrt(n, root),
    {
        if other < root {
            assert((other + 1) * (other + 1) <= root * root);
        }
        if root < other {
            assert((root + 1) * (root + 1) <= other * other);
        }
    }
}

/// Computes the integer square root by bisection.
pub fn integer_sqrt(n: u128) -> (root: u64)
    ensures
        is_sqrt(n as int, root as int),
        root == int_sqrt(n as int),
{
    let mut low: u128 = 0;
    let mut high: u128 = 0x1_0000_0000_0000_0000;
    assert(0x1_0000_0000_0000_0000int * 0x1_0000_0000_0000_0000int
        == 0x1_0000_0000_0000_0000_0000_0000_0000_0000int) by (nonlinear_arith);
    while high - low > 1
        invariant
            low < high <= 0x1_0000_0000_0000_0000,
            low * low <= n < high * high,
        decreases high - low,
    {
        let mid: u128 = low + (high - low) / 2;
        assert(mid * mid <= 0xffff_ffff_ffff_ffffint * 0xffff_ffff_ffff_ffffint) by (nonlinear_arith)
            requires
                0 <= mid <= 0xffff_ffff_ffff_ffff,
        ;
        assert(0xffff_ffff_ffff_ffffint * 0xffff_ffff_ffff_ffffint
            < 0x1_0000_0000_0000_0000_0000_0000_0000_0000int) by (nonlinear_arith);
        if mid * mid <= n {
            low = mid;
        } else {
            high = mid;
        }
    }
    proof {
        lemma_int_sqrt_unique(n as int, low as int);
    }
    low as u64
}

/// Half the length of the chord that a circle of radius `reach` cuts out of a
/// line `rise` above its centre, rounded down to whole units. A line that
/// misses the circle has a chord of length zero: the difference of the squares
/// is held at zero before the root is taken.
pub open spec fn half_chord(reach: int, rise: int) -> int {
    let square = reach * reach - rise * rise;
    int_sqrt(if square < 0 { 0 } else { square })
}

/// The exclusion that `platform` casts on the spawn line at height `top_y`:
/// none where the line is `reach` or more above the platform, else the chord
/// of the platform's reach circle.
pub open spec fn exclusion_of(platform: Platform, top_y: i64, reach: i64) -> Option<Region> {
    let rise = top_y - platform.y;
    if rise >= reach {
        None
    } else {
        Some(
            Region {
                lower: (platform.x - half_chord(reach as int, rise)) as i64,
                upper: (platform.x + half_chord(reach as int, rise)) as i64,
            },
        )
    }
}

/// The reach circle around a platform at `x` stays inside the coordinate range.
pub open spec fn reach_fits(x: i64, reach: i64) -> bool {
    reach > 0 ==> i64::MIN <= x - reach && x + reach <= i64::MAX
}

/// The half chord is never negative and never longer than the radius, and it
/// is zero where the line does not cross the circle.
pub proof fn lemma_half_chord_bounds(reach: int, rise: int)
    ensures
        0 <= half_chord(reach, rise),
        half_chord(reach, rise) <= if reach < 0 { -reach } else { reach },
        reach * reach <= rise * rise ==> half_chord(reach, rise) == 0,
{
    let square = reach * reach - rise * rise;
    let clamped = if square < 0 { 0 } else { square };
    let bound = if reach < 0 { -reach } else { reach };
    assert(exists|root: int| is_sqrt(clamped, root)) by {
        lemma_sqrt_exists(clamped);
    }
    let root = int_sqrt(clamped);
    assert(is_sqrt(clamped, root));
    assert(clamped <= bound * bound) by (nonlinear_arith)
        requires
            clamped == if reach * reach - rise * rise < 0 { 0 } else { reach * reach - rise * rise },
            bound == if reach < 0 { -reach } else { reach },
    ;
    assert(root <= bound) by (nonlinear_arith)
        requires
            0 <= root,
            0 <= bound,
            root * root <= clamped,
            clamped <= bound * bound,
    {
        if bound < root {
            assert((bound + 1) * (bound + 1) <= root * root);
        }
    }
    if reach * reach <= rise * rise {
        assert(is_sqrt(0, 0));
        lemma_int_sqrt_unique(0, 0);
    }
}

/// Every natural number has an integer square root.
proof fn lemma_sqrt_exists(n: int)
    requires
        0 <= n,
    ensures
        exists|root: int| is_sqrt(n, root),
    decreases n,
{
    if n == 0 {
        assert(is_sqrt(0, 0));
    } else {
        let smaller = n - 1;
        lemma_sqrt_exists(smaller);
        let below = int_sqrt(smaller);
        if (below + 1) * (below + 1) <= n {
            assert(is_sqrt(n, below + 1)) by (nonlinear_arith)
                requires
                    0 <= below,
                    n - 1 < (below + 1) * (below + 1),
                    (below + 1) * (below + 1) <= n,
            ;
        } else {
            assert(is_sqrt(n, below));
        }
    }
}

/// The exclusion that one platform casts on the spawn line at height `top_y`.
pub fn exclusion_at(platform: Platform, top_y: i64, reach: i64) -> (exclusion: Option<Region>)
    requires
        reach_fits(platform.x, reach),
    ensures
        exclusion == exclusion_of(platform, top_y, reach),
        exclusion is None <==> top_y - platform.y >= reach,
        exclusion matches Some(region) ==> region.lower <= platform.x <= region.upper
            && platform.x - region.lower == region.upper - platform.x,
{
    let rise: i128 = top_y as i128 - platform.y as i128;
    let radius: i128 = reach as i128;
    if rise >= radius {
        return None;
    }
    proof {
        lemma_half_chord_bounds(reach as int, rise as int);
    }
    let half: i64 = if radius <= 0 || rise <= -radius {
        assert(radius * radius <= rise * rise) by (nonlinear_arith)
            requires
                rise < radius,
                radius <= 0 || rise <= -radius,
        ;
        0
    } else {
        assert(0 < radius * radius - rise * rise <= radius * radius) by (nonlinear_arith)
            requires
                -radius < rise < radius,
        ;
        assert(radius * radius <= 0x4000_0000_0000_0000_0000_0000_0000_0000) by (nonlinear_arith)
            requires
                0 < radius <= 0x7fff_ffff_ffff_ffff,
        ;
        assert(rise * rise <= radius * radius) by (nonlinear_arith)
            requires
                -radius < rise < radius,
        ;
        let square: i128 = radius * radius - rise * rise;
        integer_sqrt(square as u128) as i64
    };
    Some(Region { lower: platform.x - half, upper: platform.x + half })
}

/// The exclusions that `platforms` cast on the spawn line at height `top_y`,
/// in the order of the platforms; a platform out of reach casts none.
pub open spec fn exclusions_of(platforms: Seq<Platform>, top_y: i64, reach: i64) -> Seq<Region>
    decreases platforms.len(),
{
    if platforms.len() == 0 {
        Seq::empty()
    } else {
        let earlier = exclusions_of(platforms.drop_last(), top_y, reach);
        match exclusion_of(platforms.last(), top_y, reach) {
            Some(exclusion) => earlier.push(exclusion),
            None => earlier,
        }
    }
}

/// Every platform's reach circle stays inside the coordinate range.
pub open spec fn all_reach_fits(platforms: Seq<Platform>, reach: i64) -> bool {
    forall|i: int| 0 <= i < platforms.len() ==> reach_fits((#[trigger] platforms[i]).x, reach)
}

/// Collects the exclusions of all platforms within reach of the spawn line.
pub fn exclusions_for(platforms: &Vec<Platform>, top_y: i64, reach: i64) -> (exclusions: Vec<
    Region,
>)
    requires
        all_reach_fits(platforms@, reach),
    ensures
        exclusions@ == exclusions_of(platforms@, top_y, reach),
        forall|i: int|
            0 <= i < exclusions@.len() ==> (#[trigger] exclusions@[i]).lower <= exclusions@[i].upper,
{
    let mut exclusions: Vec<Region> = Vec::new();
    let mut i: usize = 0;
    while i < platforms.len()
        invariant
            i <= platforms.len(),
            all_reach_fits(platforms@, reach),
            exclusions@ == exclusions_of(platforms@.take(i as int), top_y, reach),
            forall|k: int|
                0 <= k < exclusions@.len() ==> (#[trigger] exclusions@[k]).lower
                    <= exclusions@[k].upper,
        decreases platforms.len() - i,
    {
        proof {
            assert(platforms@.take(i + 1).drop_last() == platforms@.take(i as int));
        }
        match exclusion_at(platforms[i], top_y, reach) {
            Some(exclusion) => {
                exclusions.push(exclusion);
            },
            None => {},
        }
        i += 1;
    }
    proof {
        assert(platforms@.take(i as int) == platforms@);
    }
    exclusions
}

} // verus!
