//! The failure taxonomy of the reward engine.

use vstd::prelude::*;

verus! {

/// Why a reward computation failed.
///
/// A failure of any single source aborts a whole distribution run: a
/// half-computed table must never be handed to a downstream signer as if
/// it were complete.
#[derive(Debug)]
pub enum RewardError {
    /// A chain read failed: the call reverted, timed out, or returned
    /// malformed data.
    ChainRead { detail: String },
    /// An account identifier could not be parsed into canonical form.
    InvalidAccount,
    /// A reward computation would have overflowed instead of wrapping.
    ArithmeticOverflow,
    /// One source failed during an aggregation run; carries which source
    /// and the underlying cause.
    PartialAggregation { source_name: String, cause: Box<RewardError> },
}

} // verus!
