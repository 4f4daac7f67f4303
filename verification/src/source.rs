//! The reward-source capability interface.

use vstd::prelude::*;

use crate::account::Account;
use crate::amount::RewardAmount;
use crate::errors::RewardError;
use crate::set::EligibleSet;

verus! {

/// The name of a source and a key/value listing of its configuration,
/// used for audit and debugging, never for control flow.
pub struct SourceDescriptor {
    pub name: String,
    pub entries: Vec<(String, String)>,
}

/// One pluggable reward source: a unit that decides, from on-chain
/// state, which accounts it credits and how much each one earns.
///
/// This contract is the only thing an aggregator may assume of a source;
/// implementations are free to read whatever state they like behind it.
pub trait RewardSource: Sized {
    /// Whether the source's configuration is internally consistent.
    spec fn wf(&self) -> bool;

    /// What `name` returns.
    spec fn spec_name(&self) -> Seq<char>;

    /// The set of accounts the source currently credits with potential
    /// reward.
    spec fn eligible_model(&self) -> Set<Seq<u8>>;

    /// The reward the source alone grants an account, as an unbounded
    /// integer.
    spec fn reward_model(&self, account: Seq<u8>) -> nat;

    /// Whether a scan of the source's eligible accounts succeeds: for a
    /// token source, that every token's owner can be read.
    spec fn scan_ok(&self) -> bool;

    /// Whether the source can compute `account`'s reward: for a token
    /// source, that the product of rate and balance fits.
    spec fn reward_ok(&self, account: Seq<u8>) -> bool;

    /// What the source's audit descriptor shows of it.
    spec fn spec_descriptor(&self, r: SourceDescriptor) -> bool;

    /// An account outside the source's eligible set earns zero from it,
    /// and never an error.
    proof fn lemma_ineligible_zero(&self, account: Seq<u8>)
        requires
            self.wf(),
            !self.eligible_model().contains(account),
        ensures
            self.reward_model(account) == 0,
            self.reward_ok(account),
    ;

    /// The source's stable identifier: side-effect free, never fails.
    fn name(&self) -> (r: String)
        ensures
            r@ == self.spec_name(),
    ;

    /// The deduplicated set of accounts the source credits, read fresh
    /// from chain state; any failed read fails the whole query rather
    /// than being skipped.
    fn eligible_accounts(&self) -> (r: Result<EligibleSet, RewardError>)
        requires
            self.wf(),
        ensures
            r is Ok <==> self.scan_ok(),
            r matches Ok(s) ==> s.wf() && s@ == self.eligible_model(),
            r matches Err(e) ==> e is ChainRead,
    ;

    /// The reward the source alone grants `account`: zero, not an
    /// error, where the account is not eligible.
    fn reward_for(&self, account: &Account) -> (r: Result<RewardAmount, RewardError>)
        requires
            self.wf(),
            account.wf(),
        ensures
            r is Ok <==> self.reward_ok(account@),
            r matches Ok(amt) ==> amt@ == self.reward_model(account@),
            r matches Err(e) ==> e is ChainRead || e is InvalidAccount
                || e is ArithmeticOverflow,
    ;

    /// Describes the source for audit logs; side-effect free.
    fn describe(&self) -> (r: SourceDescriptor)
        requires
            self.wf(),
        ensures
            r.name@ == self.spec_name(),
            self.spec_descriptor(r),
    ;
}

} // verus!
