//! Reward-source aggregation engine.
//!
//! A reward source determines, from a snapshot of on-chain state, which
//! accounts are eligible for a reward and how much each one earns. The
//! aggregator composes several sources: it unions their eligible sets,
//! sums each account's contributions, and emits a table sorted by the
//! accounts' canonical byte values so that independent runs serialize
//! identically.

pub mod account;
pub mod aggregator;
pub mod amount;
pub mod chain;
pub mod codec;
pub mod erc721;
pub mod errors;
pub mod laws;
pub mod set;
pub mod source;

pub use account::Account;
pub use aggregator::{RewardAggregator, RewardTable};
pub use amount::RewardAmount;
pub use chain::Erc721Chain;
pub use erc721::Erc721Source;
pub use errors::RewardError;
pub use set::EligibleSet;
pub use source::{RewardSource, SourceDescriptor};
