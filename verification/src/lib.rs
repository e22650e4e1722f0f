//! Parallel algorithms for drawing a uniform random sample of size `k`,
//! without replacement, from a population of `n` elements.
//!
//! The crate provides interchangeable sampler families behind the
//! [`sampl_interface::Sampler`] capability: a rejection sampler, permutation
//! samplers built on a conflict-resolving reservation protocol, and priority
//! samplers built on randomized order-statistic selection.  All of them
//! share one work-efficient prefix scan used for stream compaction.

pub mod compaction;
pub mod cwslice;
pub mod naive_sampler;
pub mod perm_sampler;
pub mod prefix_scan;
pub mod priority_sampler;
mod rng;
pub mod sampl_interface;
