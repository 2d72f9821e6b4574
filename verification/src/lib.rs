//! Spawn-region allocation for a vertically scrolling platformer.
//!
//! Given the platforms already placed and a reach distance, the library
//! computes which stretches of the next spawn line are still free and draws a
//! spawn coordinate from them.
//!
//! Coordinates are integers, in whatever fixed-point unit the caller picks.
//! A region with integer bounds is made of unit segments `[c, c + 1]`, and the
//! contracts say on which unit segments a new platform may land.
//!
//! - `region`: closed intervals and the two clipping operations.
//! - `partition`: the model of the sweep that cuts exclusions out of a domain.
//! - `laws`: what is proved of that model.
//! - `region_set`: the partition itself, built by the sweep, and the sampler.
//! - `geometry`: from platform positions to exclusions.
//! - `spawn`: one whole spawn attempt.

mod draw;
pub mod geometry;
pub mod laws;
pub mod partition;
pub mod region;
pub mod region_set;
pub mod spawn;
