//! A queryable snapshot of the token-contract state a source reads.
//!
//! The engine never talks to a transport itself: whatever performs the
//! RPC round trips hands the engine one of these read-only snapshots,
//! and every query below answers from it deterministically.

use vstd::prelude::*;

use crate::account::Account;
use crate::errors::RewardError;

verus! {

/// How many of the listed token slots are owned by `account`.
pub open spec fn count_owned(owners: Seq<Option<Seq<u8>>>, account: Seq<u8>) -> nat
    decreases owners.len(),
{
    if owners.len() == 0 {
        0
    } else {
        count_owned(owners.drop_last(), account) + if owners.last() == Some(account) {
            1nat
        } else {
            0nat
        }
    }
}

/// A slot list in which no slot is owned by `account` counts zero.
pub proof fn lemma_count_owned_absent(owners: Seq<Option<Seq<u8>>>, account: Seq<u8>)
    requires
        forall|i: int| 0 <= i < owners.len() ==> owners[i] != Some(account),
    ensures
        count_owned(owners, account) == 0,
    decreases owners.len(),
{
    if owners.len() > 0 {
        lemma_count_owned_absent(owners.drop_last(), account);
    }
}

/// The state of one ERC-721-like contract, as read at a single instant:
/// the owner of the token at each index below the total supply.
///
/// A `None` slot stands for a token whose owner cannot be read (a burned
/// or nonexistent token, whose `ownerOf` call reverts): reading it is a
/// chain-read failure, never a silent skip.
pub struct Erc721Chain {
    owners: Vec<Option<Account>>,
}

impl Erc721Chain {
    /// The owner bytes at each token index.
    pub closed spec fn owners_model(&self) -> Seq<Option<Seq<u8>>> {
        self.owners@.map_values(
            |o: Option<Account>|
                match o {
                    Some(a) => Some(a@),
                    None => None,
                },
        )
    }

    /// Every listed owner is well formed.
    pub closed spec fn wf(&self) -> bool {
        forall|i: int|
            0 <= i < self.owners@.len() ==> ((#[trigger] self.owners@[i]) matches Some(a) ==> a.wf())
    }

    /// The total token supply of the snapshot.
    pub open spec fn supply(&self) -> nat {
        self.owners_model().len()
    }

    /// Whether every token's owner can be read.
    pub open spec fn all_readable(&self) -> bool {
        forall|i: int| 0 <= i < self.supply() ==> (#[trigger] self.owners_model()[i]) is Some
    }

    /// The owners of the tokens below index `k`.
    pub open spec fn holder_set_upto(&self, k: int) -> Set<Seq<u8>> {
        Set::new(
            |a: Seq<u8>| exists|i: int| 0 <= i < k && self.owners_model()[i] == Some(a),
        )
    }

    /// The deduplicated owners of the snapshot: its eligible accounts.
    pub open spec fn holder_set(&self) -> Set<Seq<u8>> {
        Set::new(
            |a: Seq<u8>|
                exists|i: int| 0 <= i < self.supply() && self.owners_model()[i] == Some(a),
        )
    }

    /// How many tokens `account` owns in the snapshot.
    pub open spec fn balance_model(&self, account: Seq<u8>) -> nat {
        count_owned(self.owners_model(), account)
    }

    /// A zero-supply snapshot has no holders and nothing unreadable, so
    /// a scan of it yields the empty set, not an error.
    pub proof fn lemma_zero_supply_empty(&self)
        requires
            self.supply() == 0,
        ensures
            self.holder_set() == Set::<Seq<u8>>::empty(),
            self.all_readable(),
    {
        assert(self.holder_set() =~= Set::<Seq<u8>>::empty());
    }

    /// Builds a snapshot from the owner of each token index.
    pub fn new(owners: Vec<Option<Account>>) -> (r: Erc721Chain)
        requires
            forall|i: int|
                0 <= i < owners@.len() ==> ((#[trigger] owners@[i]) matches Some(a) ==> a.wf()),
        ensures
            r.wf(),
            r.supply() == owners@.len(),
            forall|i: int|
                0 <= i < owners@.len() ==> r.owners_model()[i] == match owners@[i] {
                    Some(a) => Some(a@),
                    None => None::<Seq<u8>>,
                },
    {
        Erc721Chain { owners }
    }

    /// Reads the total supply.
    pub fn total_supply(&self) -> (r: usize)
        ensures
            r == self.supply(),
    {
        self.owners.len()
    }

    /// Reads the owner of the token at one index; fails as a chain read
    /// does where the index is out of range or the token's owner cannot
    /// be read.
    pub fn owner_of(&self, index: usize) -> (r: Result<Account, RewardError>)
        requires
            self.wf(),
        ensures
            r is Ok <==> index < self.supply() && self.owners_model()[index as int] is Some,
            r matches Ok(a) ==> Some(a@) == self.owners_model()[index as int] && a.wf(),
            r matches Err(e) ==> e is ChainRead,
    {
        if index < self.owners.len() {
            match &self.owners[index] {
                Some(a) => Ok(a.clone()),
                None => Err(
                    RewardError::ChainRead {
                        detail: String::from_str("token owner read reverted"),
                    },
                ),
            }
        } else {
            Err(RewardError::ChainRead { detail: String::from_str("token index out of range") })
        }
    }

    /// Reads how many tokens an account owns.
    pub fn balance_of(&self, account: &Account) -> (r: usize)
        ensures
            r == self.balance_model(account@),
    {
        let mut count: usize = 0;
        let mut i: usize = 0;
        while i < self.owners.len()
            invariant
                i <= self.owners@.len(),
                count <= i,
                count == count_owned(self.owners_model().take(i as int), account@),
            decreases self.owners@.len() - i,
        {
            let ghost prefix = self.owners_model().take(i as int);
            let owned = match &self.owners[i] {
                Some(o) => o.eq(account),
                None => false,
            };
            proof {
                assert(self.owners_model().take(i + 1).drop_last() =~= prefix);
                assert(self.owners_model().take(i + 1).last() == self.owners_model()[i as int]);
            }
            if owned {
                count += 1;
            }
            i += 1;
        }
        proof {
            assert(self.owners_model().take(self.owners@.len() as int) =~= self.owners_model());
        }
        count
    }
}

} // verus!
