//! Composition of reward sources into one distribution table.

use vstd::prelude::*;

use crate::account::{bytes_lt, Account};
use crate::amount::RewardAmount;
use crate::errors::RewardError;
use crate::set::{members_of, EligibleSet};
use crate::source::RewardSource;

verus! {

broadcast use vstd::seq_lib::group_to_multiset_ensures;

/// The accounts that at least one of the sources credits.
pub open spec fn union_eligible<S: RewardSource>(sources: Seq<S>) -> Set<Seq<u8>> {
    Set::new(
        |a: Seq<u8>|
            exists|i: int|
                0 <= i < sources.len() && (#[trigger] sources[i]).eligible_model().contains(a),
    )
}

/// The total reward an account earns across the sources.
pub open spec fn sum_rewards<S: RewardSource>(sources: Seq<S>, account: Seq<u8>) -> nat
    decreases sources.len(),
{
    if sources.len() == 0 {
        0
    } else {
        sum_rewards(sources.drop_last(), account) + sources.last().reward_model(account)
    }
}

/// Whether a point query for `account` succeeds: every source can
/// compute its contribution and the total fits a machine amount.
pub open spec fn account_sum_ok<S: RewardSource>(sources: Seq<S>, account: Seq<u8>) -> bool {
    &&& forall|i: int| 0 <= i < sources.len() ==> (#[trigger] sources[i]).reward_ok(account)
    &&& sum_rewards(sources, account) <= u128::MAX as nat
}

/// Whether a full distribution run succeeds: every source's scan reads,
/// and every eligible account's total can be computed.
pub open spec fn distribution_ok<S: RewardSource>(sources: Seq<S>) -> bool {
    &&& forall|i: int| 0 <= i < sources.len() ==> (#[trigger] sources[i]).scan_ok()
    &&& forall|a: Seq<u8>|
        #[trigger] union_eligible(sources).contains(a) ==> account_sum_ok(sources, a)
}

/// A scan's running sum never exceeds its final sum.
pub proof fn lemma_sum_rewards_prefix<S: RewardSource>(sources: Seq<S>, i: int, account: Seq<u8>)
    requires
        0 <= i <= sources.len(),
    ensures
        sum_rewards(sources.take(i), account) <= sum_rewards(sources, account),
    decreases sources.len(),
{
    if i == sources.len() {
        assert(sources.take(i) =~= sources);
    } else {
        assert(sources.drop_last().take(i) =~= sources.take(i));
        lemma_sum_rewards_prefix(sources.drop_last(), i, account);
    }
}

/// A distribution: one row per eligible account, in ascending canonical
/// byte order, so that independent runs serialize identically.
pub struct RewardTable {
    pub entries: Vec<(Account, RewardAmount)>,
}

impl RewardTable {
    /// The canonical bytes of each row's account.
    pub open spec fn keys(&self) -> Seq<Seq<u8>> {
        self.entries@.map_values(|p: (Account, RewardAmount)| p.0@)
    }

    /// Each row as the account's bytes and the amount's value.
    pub open spec fn models(&self) -> Seq<(Seq<u8>, nat)> {
        self.entries@.map_values(|p: (Account, RewardAmount)| (p.0@, p.1@))
    }

    /// Rows stand in strictly ascending canonical byte order.
    pub open spec fn sorted(&self) -> bool {
        forall|i: int, j: int|
            0 <= i < j < self.keys().len() ==> bytes_lt(self.keys()[i], self.keys()[j])
    }

    /// Every row names a canonical account.
    pub open spec fn wf(&self) -> bool {
        forall|i: int| 0 <= i < self.entries@.len() ==> (#[trigger] self.entries@[i]).0.wf()
    }

    /// How many rows the table holds.
    pub fn len(&self) -> (r: usize)
        ensures
            r == self.models().len(),
    {
        self.entries.len()
    }

    /// One row of the table.
    pub fn get(&self, i: usize) -> (r: &(Account, RewardAmount))
        requires
            i < self.models().len(),
        ensures
            r.0@ == self.models()[i as int].0,
            r.1@ == self.models()[i as int].1,
    {
        &self.entries[i]
    }
}

/// What it means for a table to be the distribution of `sources`: rows
/// sorted strictly ascending, keys exactly the union of the sources'
/// eligible sets, and each row's amount the account's summed reward.
pub open spec fn is_distribution_table<S: RewardSource>(sources: Seq<S>, t: RewardTable) -> bool {
    &&& t.sorted()
    &&& t.wf()
    &&& forall|a: Seq<u8>|
        #[trigger] t.keys().contains(a) <==> union_eligible(sources).contains(a)
    &&& forall|i: int|
        0 <= i < t.models().len() ==> (#[trigger] t.models()[i]).1 == sum_rewards(
            sources,
            t.models()[i].0,
        )
}

/// Composes an ordered list of reward sources; the order is kept for
/// audit only and never affects the resulting table.
pub struct RewardAggregator<S> {
    pub sources: Vec<S>,
}

impl<S: RewardSource> RewardAggregator<S> {
    /// Every composed source is internally consistent.
    pub open spec fn wf(&self) -> bool {
        forall|i: int| 0 <= i < self.sources@.len() ==> (#[trigger] self.sources@[i]).wf()
    }

    /// Builds an aggregator over the given sources.
    pub fn new(sources: Vec<S>) -> (r: RewardAggregator<S>)
        requires
            forall|i: int| 0 <= i < sources@.len() ==> (#[trigger] sources@[i]).wf(),
        ensures
            r.wf(),
            r.sources@ == sources@,
    {
        RewardAggregator { sources }
    }

    /// Sums one account's reward across every source, without computing
    /// the full eligible set. It succeeds exactly where every source can
    /// compute its contribution and the total fits; a failing source
    /// aborts the query, identified by name.
    pub fn reward_for_account(&self, account: &Account) -> (r: Result<RewardAmount, RewardError>)
        requires
            self.wf(),
            account.wf(),
        ensures
            r is Ok <==> account_sum_ok(self.sources@, account@),
            r matches Ok(amt) ==> amt@ == sum_rewards(self.sources@, account@),
            r matches Err(e) ==> e is PartialAggregation || e is ArithmeticOverflow,
            r matches Err(RewardError::PartialAggregation { source_name, cause }) ==> exists|i:
                int|
                0 <= i < self.sources@.len() && (#[trigger] self.sources@[i]).spec_name()
                    == source_name@ && !self.sources@[i].reward_ok(account@),
            r matches Err(RewardError::ArithmeticOverflow) ==> sum_rewards(
                self.sources@,
                account@,
            ) > u128::MAX as nat,
    {
        let mut total = RewardAmount::zero();
        let mut i: usize = 0;
        let n = self.sources.len();
        while i < n
            invariant
                self.wf(),
                account.wf(),
                n == self.sources@.len(),
                i <= n,
                total@ == sum_rewards(self.sources@.take(i as int), account@),
                forall|k: int|
                    0 <= k < i ==> (#[trigger] self.sources@[k]).reward_ok(account@),
            decreases n - i,
        {
            let contribution = match self.sources[i].reward_for(account) {
                Ok(amt) => amt,
                Err(e) => {
                    return Err(
                        RewardError::PartialAggregation {
                            source_name: self.sources[i].name(),
                            cause: Box::new(e),
                        },
                    );
                },
            };
            proof {
                assert(self.sources@.take(i + 1).drop_last() =~= self.sources@.take(i as int));
                assert(self.sources@.take(i + 1).last() == self.sources@[i as int]);
            }
            total = match total.checked_add(contribution) {
                Ok(t) => t,
                Err(e) => {
                    proof {
                        lemma_sum_rewards_prefix(self.sources@, i + 1, account@);
                    }
                    return Err(e);
                },
            };
            i += 1;
        }
        proof {
            assert(self.sources@.take(n as int) =~= self.sources@);
        }
        Ok(total)
    }

    /// Computes the full distribution: queries every source's eligible
    /// accounts, unions them, sums each candidate's reward over every
    /// source, and emits the rows sorted ascending by canonical byte
    /// value. It succeeds exactly where every source's scan reads and
    /// every eligible account's total can be computed; any source
    /// failure aborts the whole run, identified by name — a table with
    /// missing sources is never produced.
    pub fn compute_distribution(&self) -> (r: Result<RewardTable, RewardError>)
        requires
            self.wf(),
        ensures
            r is Ok <==> distribution_ok(self.sources@),
            r matches Ok(t) ==> is_distribution_table(self.sources@, t),
            r matches Err(e) ==> e is PartialAggregation || e is ArithmeticOverflow,
            r matches Err(RewardError::PartialAggregation { source_name, cause }) ==> exists|i:
                int|
                0 <= i < self.sources@.len() && (#[trigger] self.sources@[i]).spec_name()
                    == source_name@ && (!self.sources@[i].scan_ok() || exists|a: Seq<u8>|
                    #[trigger] union_eligible(self.sources@).contains(a)
                        && !self.sources@[i].reward_ok(a)),
            r matches Err(RewardError::ArithmeticOverflow) ==> exists|a: Seq<u8>|
                #[trigger] union_eligible(self.sources@).contains(a) && sum_rewards(
                    self.sources@,
                    a,
                ) > u128::MAX as nat,
    {
        let mut candidates = EligibleSet::new();
        let n = self.sources.len();
        let mut i: usize = 0;
        proof {
            assert(candidates@ =~= union_eligible(self.sources@.take(0)));
        }
        while i < n
            invariant
                self.wf(),
                n == self.sources@.len(),
                i <= n,
                candidates.wf(),
                candidates@ == union_eligible(self.sources@.take(i as int)),
                forall|k: int| 0 <= k < i ==> (#[trigger] self.sources@[k]).scan_ok(),
            decreases n - i,
        {
            let eligible = match self.sources[i].eligible_accounts() {
                Ok(s) => s,
                Err(e) => {
                    proof {
                        assert(!self.sources@[i as int].scan_ok());
                        assert(!distribution_ok(self.sources@));
                    }
                    return Err(
                        RewardError::PartialAggregation {
                            source_name: self.sources[i].name(),
                            cause: Box::new(e),
                        },
                    );
                },
            };
            candidates.insert_all(&eligible);
            proof {
                let prev = self.sources@.take(i as int);
                let next = self.sources@.take(i + 1);
                assert forall|a: Seq<u8>| #![trigger union_eligible(next).contains(a)]
                    union_eligible(next).contains(a) <==> (union_eligible(prev).contains(a)
                    || self.sources@[i as int].eligible_model().contains(a)) by {
                    if union_eligible(next).contains(a) {
                        let k = choose|k: int|
                            0 <= k < next.len() && next[k].eligible_model().contains(a);
                        if k < i {
                            assert(prev[k] == next[k]);
                            assert(union_eligible(prev).contains(a));
                        } else {
                            assert(next[k] == self.sources@[i as int]);
                        }
                    }
                    if union_eligible(prev).contains(a) {
                        let k = choose|k: int|
                            0 <= k < prev.len() && prev[k].eligible_model().contains(a);
                        assert(next[k] == prev[k]);
                        assert(union_eligible(next).contains(a));
                    }
                    if self.sources@[i as int].eligible_model().contains(a) {
                        assert(next[i as int] == self.sources@[i as int]);
                        assert(union_eligible(next).contains(a));
                    }
                }
                assert(candidates@ =~= union_eligible(next));
            }
            i += 1;
        }
        proof {
            assert(self.sources@.take(n as int) =~= self.sources@);
        }
        let ordered = candidates.to_sorted_vec();
        let mut entries: Vec<(Account, RewardAmount)> = Vec::new();
        let m = ordered.len();
        let mut j: usize = 0;
        while j < m
            invariant
                self.wf(),
                m == ordered@.len(),
                j <= m,
                entries@.len() == j,
                forall|k: int, l: int|
                    0 <= k < l < ordered@.len() ==> bytes_lt(ordered@[k]@, ordered@[l]@),
                members_of(ordered@) == union_eligible(self.sources@),
                forall|k: int| 0 <= k < ordered@.len() ==> (#[trigger] ordered@[k]).wf(),
                forall|k: int| 0 <= k < n ==> (#[trigger] self.sources@[k]).scan_ok(),
                n == self.sources@.len(),
                forall|k: int|
                    0 <= k < j ==> account_sum_ok(self.sources@, (#[trigger] ordered@[k])@),
                forall|k: int| 0 <= k < j ==> (#[trigger] entries@[k]).0@ == ordered@[k]@,
                forall|k: int|
                    0 <= k < j ==> (#[trigger] entries@[k]).1@ == sum_rewards(
                        self.sources@,
                        entries@[k].0@,
                    ),
                forall|k: int| 0 <= k < j ==> (#[trigger] entries@[k]).0.wf(),
            decreases m - j,
        {
            let account = ordered[j].clone();
            proof {
                assert(members_of(ordered@).contains(account@));
            }
            let amount = match self.reward_for_account(&account) {
                Ok(a) => a,
                Err(e) => {
                    proof {
                        assert(union_eligible(self.sources@).contains(account@));
                        assert(!account_sum_ok(self.sources@, account@));
                        assert(!distribution_ok(self.sources@));
                    }
                    return Err(e);
                },
            };
            entries.push((account, amount));
            j += 1;
        }
        let table = RewardTable { entries };
        proof {
            assert forall|a: Seq<u8>| #[trigger]
                union_eligible(self.sources@).contains(a) implies account_sum_ok(
                self.sources@,
                a,
            ) by {
                assert(members_of(ordered@).contains(a));
                let k = choose|k: int| 0 <= k < ordered@.len() && ordered@[k]@ == a;
                assert(account_sum_ok(self.sources@, ordered@[k]@));
            }
            assert(distribution_ok(self.sources@));
            assert forall|a: Seq<u8>| #[trigger]
                table.keys().contains(a) <==> union_eligible(self.sources@).contains(a) by {
                if table.keys().contains(a) {
                    let k = choose|k: int|
                        0 <= k < table.keys().len() && table.keys()[k] == a;
                    assert(table.entries@[k].0@ == a);
                    assert(ordered@[k]@ == a);
                    assert(members_of(ordered@).contains(a));
                }
                if union_eligible(self.sources@).contains(a) {
                    let k = choose|k: int| 0 <= k < ordered@.len() && ordered@[k]@ == a;
                    assert(table.keys()[k] == a);
                }
            }
            assert forall|i2: int, j2: int|
                0 <= i2 < j2 < table.keys().len() implies bytes_lt(
                table.keys()[i2],
                table.keys()[j2],
            ) by {
                assert(table.keys()[i2] == ordered@[i2]@);
                assert(table.keys()[j2] == ordered@[j2]@);
            }
            assert forall|i2: int|
                0 <= i2 < table.models().len() implies (#[trigger] table.models()[i2]).1
                == sum_rewards(self.sources@, table.models()[i2].0) by {
                assert(table.models()[i2].0 == table.entries@[i2].0@);
                assert(table.models()[i2].1 == table.entries@[i2].1@);
            }
        }
        Ok(table)
    }
}

} // verus!
