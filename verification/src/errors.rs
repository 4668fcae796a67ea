//! The errors of the scheme.

use vstd::prelude::*;

verus! {

/// The configuration errors of the scheme. A signature that does not verify is
/// never one of them: verification answers `Ok(false)` for it.
#[derive(Debug, Clone, Copy, PartialEq, Eq, Structural)]
pub enum PixelError {
    /// The maximum number of periods is zero or beyond what a depth can index.
    InvalidMaxTimePeriod { t_max: u128 },
    /// The period is not a node of the tree of depth `l`.
    InvalidNodeNum { t: u128, l: u8 },
    /// The path is too long for a tree of depth `l`, or has a step other than 1 or 2.
    InvalidPath { l: u8 },
    /// The generator set is too short: `n` generators are needed.
    NotEnoughGenerators { n: usize },
    /// The key set holds the key of another period than `t`.
    SigkeyNotFound { t: u128 },
    /// The key set has already reached `current`, and `requested` is not later.
    SigkeyAlreadyUpdated { current: u128, requested: u128 },
    /// The period lies beyond the last period `t_max` of the key set.
    PeriodBeyondMax { t: u128, t_max: u128 },
    /// Fewer blinding scalars were supplied than the `n` that the update consumes.
    NotEnoughScalars { n: usize },
}

} // verus!
