//! Detection of likely mis-assembly regions from reads mapped back onto the
//! assembly they were built from.
//!
//! Every mapped read is walked over the accumulator of its contig, which
//! counts per-base coverage and clip sites. Two passes over the finished
//! accumulators then report the clip sites that stand out against the local
//! coverage and the stretches that no read covers.

pub mod assembly;
pub mod cigar;
pub mod clip_report;
pub mod config;
pub mod contig;
pub mod zero_coverage;
