//! Loudness statistics over a running stream of block energies, after the
//! gating rules of EBU R128 and the loudness range of EBU Tech 3342.
//!
//! An energy enters and leaves this crate as a `u64` key: the bit pattern of
//! the IEEE-754 double that carries it. On non-negative doubles the order of
//! the keys is the order of the numbers, so every comparison, count, rank and
//! selection is made here on integers. A key with the sign bit set stands for
//! a negative number and never enters a history. A double that is not a
//! number has no place in that order and is no energy.
//!
//! What is left to the caller is the arithmetic on the doubles themselves:
//! the sum of the samples that a [`samples::Samples`] lists, their mean, the
//! scaling of a mean to a threshold, and the logarithm that turns an energy
//! into a loudness.
//!
//! - [`scale`]: the boundaries and energies of the buckets, and the search
//!   for the bucket of an energy.
//! - [`histogram`] and [`queue`]: the two ways to keep energies.
//! - [`history`]: one of the two behind one surface, and the statistics over
//!   one history or over several.
//! - [`samples`]: weighted energies, and the ranks of the percentiles.
pub mod samples;
pub mod scale;
pub mod histogram;
pub mod queue;
pub mod history;
