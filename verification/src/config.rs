//! The validated configuration of a run.
//!
//! The clip signal means something only for an alignment of long reads onto
//! an assembly built from those same reads. A configuration therefore exists
//! only where the operator has confirmed that the input is of that kind.

use crate::clip_report::Ratio;
use vstd::prelude::*;

verus! {

/// The distance from the contig ends within which clip sites are ignored,
/// where the operator names none.
pub const DEFAULT_MIN_DIST_TO_END: usize = 100;

/// Why no configuration can be made.
#[derive(Clone, Copy, Debug, PartialEq, Eq, Structural)]
pub enum ConfigError {
    /// The operator has not confirmed that the reads were mapped onto an
    /// assembly built from them.
    NotConfirmed,
}

/// The thresholds of a confirmed run.
#[derive(Clone, Copy, Debug)]
pub struct Config {
    min_dist_to_end: usize,
    min_clipping_ratio: Ratio,
}

impl Config {
    /// The distance from the contig ends within which clip sites are ignored.
    pub closed spec fn spec_min_dist_to_end(&self) -> usize {
        self.min_dist_to_end
    }

    /// The least clip ratio of a reported site.
    pub closed spec fn spec_min_clipping_ratio(&self) -> Ratio {
        self.min_clipping_ratio
    }

    /// The configuration with the given thresholds, if the run is confirmed.
    pub fn new(confirmed: bool, min_dist_to_end: usize, min_clipping_ratio: Ratio) -> (config:
        Result<Config, ConfigError>)
        ensures
            config is Ok <==> confirmed,
            config matches Ok(c) ==> c.spec_min_dist_to_end() == min_dist_to_end
                && c.spec_min_clipping_ratio() == min_clipping_ratio,
            config matches Err(e) ==> e == ConfigError::NotConfirmed,
    {
        if confirmed {
            Ok(Config { min_dist_to_end, min_clipping_ratio })
        } else {
            Err(ConfigError::NotConfirmed)
        }
    }

    /// The distance from the contig ends within which clip sites are ignored.
    #[verifier::when_used_as_spec(spec_min_dist_to_end)]
    pub fn min_dist_to_end(&self) -> (distance: usize)
        ensures
            distance == self.spec_min_dist_to_end(),
    {
        self.min_dist_to_end
    }

    /// The least clip ratio of a reported site.
    #[verifier::when_used_as_spec(spec_min_clipping_ratio)]
    pub fn min_clipping_ratio(&self) -> (ratio: Ratio)
        ensures
            ratio == self.spec_min_clipping_ratio(),
    {
        self.min_clipping_ratio
    }
}

} // verus!
