//! A reward source over an ERC-721-like token contract: every holder is
//! eligible, and each earns a fixed rate per token held.

use vstd::prelude::*;
use vstd::string::StringExecFns;

use crate::account::{spec_parse_account, Account};
use crate::amount::{dec_val, RewardAmount};
use crate::chain::{lemma_count_owned_absent, Erc721Chain};
use crate::errors::RewardError;
use crate::set::EligibleSet;
use crate::source::{RewardSource, SourceDescriptor};

verus! {

/// Computes rewards from an ERC-721 token: eligibility is holding at
/// least one token, and the reward is a fixed rate per token held.
///
/// Immutable after construction; all token state is read from the chain
/// snapshot handed to the constructor.
pub struct Erc721Source {
    /// Contract address.
    pub address: Account,
    /// Rewards per token.
    pub rewards_per_token: RewardAmount,
    /// The contract state the source reads.
    pub chain: Erc721Chain,
}

impl Erc721Source {
    /// Builds a source from the contract's address spelling, the
    /// per-token rate, and the chain snapshot to read.
    pub fn new(address: &str, rewards_per_token: RewardAmount, chain: Erc721Chain) -> (r:
        Erc721Source)
        requires
            spec_parse_account(address@) is Some,
            chain.wf(),
        ensures
            r.wf(),
            Some(r.address@) == spec_parse_account(address@),
            r.rewards_per_token == rewards_per_token,
            r.chain == chain,
    {
        let contract = match Account::parse(address) {
            Ok(a) => a,
            Err(_) => vstd::pervasive::unreached(),
        };
        Erc721Source { address: contract, rewards_per_token, chain }
    }

    /// Scans the snapshot: reads the total supply, then the owner of
    /// every token index below it, collapsing multi-token holders into
    /// one set entry. A zero supply yields the empty set, not an error;
    /// an unreadable owner fails the whole scan, never a silent skip.
    pub fn query_holders(&self) -> (r: Result<EligibleSet, RewardError>)
        requires
            self.wf(),
        ensures
            r is Ok <==> self.chain.all_readable(),
            r matches Ok(s) ==> s.wf() && s@ == self.chain.holder_set(),
            r matches Err(e) ==> e is ChainRead,
    {
        let supply = self.chain.total_supply();
        let mut holders = EligibleSet::new();
        let mut i: usize = 0;
        while i < supply
            invariant
                self.wf(),
                supply == self.chain.supply(),
                i <= supply,
                holders.wf(),
                holders@ == self.chain.holder_set_upto(i as int),
                forall|k: int| 0 <= k < i ==> self.chain.owners_model()[k] is Some,
            decreases supply - i,
        {
            match self.chain.owner_of(i) {
                Ok(owner) => {
                    holders.insert(owner);
                    proof {
                        assert(holders@ =~= self.chain.holder_set_upto(i + 1));
                    }
                },
                Err(e) => {
                    return Err(e);
                },
            }
            i += 1;
        }
        proof {
            assert(holders@ =~= self.chain.holder_set());
        }
        Ok(holders)
    }

    /// Reads how many of the contract's tokens `owner` holds.
    pub fn query_nft_ownership(&self, owner: &Account) -> (r: usize)
        requires
            self.wf(),
        ensures
            r == self.chain.balance_model(owner@),
    {
        self.chain.balance_of(owner)
    }

    /// The reward owed by this source alone: the per-token rate times
    /// the account's balance; fails exactly where that product would
    /// overflow.
    pub fn token_reward(&self, account: &Account) -> (r: Result<RewardAmount, RewardError>)
        requires
            self.wf(),
            account.wf(),
        ensures
            r is Ok <==> self.reward_model(account@) <= u128::MAX as nat,
            r matches Ok(amt) ==> amt@ == self.reward_model(account@),
            r matches Err(e) ==> e is ArithmeticOverflow,
    {
        let balance = self.query_nft_ownership(account);
        self.rewards_per_token.checked_mul(RewardAmount::new(balance as u128))
    }
}

impl RewardSource for Erc721Source {
    open spec fn wf(&self) -> bool {
        self.address.wf() && self.chain.wf()
    }

    open spec fn spec_name(&self) -> Seq<char> {
        "ERC721"@
    }

    open spec fn eligible_model(&self) -> Set<Seq<u8>> {
        self.chain.holder_set()
    }

    open spec fn reward_model(&self, account: Seq<u8>) -> nat {
        self.rewards_per_token@ * self.chain.balance_model(account)
    }

    open spec fn scan_ok(&self) -> bool {
        self.chain.all_readable()
    }

    open spec fn reward_ok(&self, account: Seq<u8>) -> bool {
        self.reward_model(account) <= u128::MAX as nat
    }

    open spec fn spec_descriptor(&self, r: SourceDescriptor) -> bool {
        &&& r.entries@.len() == 2
        &&& r.entries@[0].0@ == "address"@
        &&& spec_parse_account(r.entries@[0].1@) == Some(self.address@)
        &&& r.entries@[1].0@ == "rewards_per_token"@
        &&& dec_val(r.entries@[1].1@) == self.rewards_per_token@
    }

    proof fn lemma_ineligible_zero(&self, account: Seq<u8>) {
        assert forall|i: int|
            0 <= i < self.chain.supply() implies self.chain.owners_model()[i] != Some(
            account,
        ) by {
            if self.chain.owners_model()[i] == Some(account) {
                assert(self.chain.holder_set().contains(account));
            }
        }
        lemma_count_owned_absent(self.chain.owners_model(), account);
        assert(self.chain.balance_model(account) == 0);
        assert(self.rewards_per_token@ * 0 == 0);
    }

    fn name(&self) -> (r: String) {
        String::from_str("ERC721")
    }

    fn eligible_accounts(&self) -> (r: Result<EligibleSet, RewardError>) {
        self.query_holders()
    }

    fn reward_for(&self, account: &Account) -> (r: Result<RewardAmount, RewardError>) {
        self.token_reward(account)
    }

    fn describe(&self) -> (r: SourceDescriptor) {
        let mut entries: Vec<(String, String)> = Vec::new();
        entries.push((String::from_str("address"), self.address.to_hex_string()));
        entries.push(
            (String::from_str("rewards_per_token"), self.rewards_per_token.to_decimal_string()),
        );
        SourceDescriptor { name: String::from_str("ERC721"), entries }
    }
}

} // verus!
