//! The engine's aggregate laws: the distribution is a function of the
//! set of sources and the chain state alone, never of query order.

use vstd::prelude::*;

use crate::account::{bytes_lt, lemma_bytes_order_total, Account};
use crate::aggregator::{
    account_sum_ok, is_distribution_table, sum_rewards, union_eligible, RewardTable,
};
use crate::source::RewardSource;

verus! {

broadcast use vstd::seq_lib::group_to_multiset_ensures;

/// Whether `a` is a key of the listing `m`.
pub open spec fn key_in(m: Seq<(Seq<u8>, nat)>, a: Seq<u8>) -> bool {
    exists|i: int| 0 <= i < m.len() && (#[trigger] m[i]).0 == a
}

/// Taking one source out takes exactly its contribution out of the sum.
proof fn lemma_sum_rewards_remove<S: RewardSource>(sources: Seq<S>, j: int, account: Seq<u8>)
    requires
        0 <= j < sources.len(),
    ensures
        sum_rewards(sources, account) == sum_rewards(sources.remove(j), account)
            + sources[j].reward_model(account),
    decreases sources.len(),
{
    if j == sources.len() - 1 {
        assert(sources.remove(j) =~= sources.drop_last());
    } else {
        assert(sources.remove(j).drop_last() =~= sources.drop_last().remove(j));
        assert(sources.remove(j).last() == sources.last());
        lemma_sum_rewards_remove(sources.drop_last(), j, account);
    }
}

/// The summed reward does not depend on the order of the sources.
pub proof fn lemma_sum_rewards_commutative<S: RewardSource>(s1: Seq<S>, s2: Seq<S>, account: Seq<
    u8,
>)
    requires
        s1.to_multiset() == s2.to_multiset(),
    ensures
        sum_rewards(s1, account) == sum_rewards(s2, account),
    decreases s1.len(),
{
    if s1.len() == 0 {
        assert(s2.to_multiset().len() == 0);
    } else {
        let x = s1.last();
        let rest = s1.drop_last();
        assert(s1 =~= rest.push(x));
        assert(s1.to_multiset() == rest.to_multiset().insert(x));
        assert(s2.to_multiset().count(x) > 0);
        assert(s2.contains(x));
        let j = choose|j: int| 0 <= j < s2.len() && s2[j] == x;
        assert(s2.remove(j).to_multiset() == s2.to_multiset().remove(x));
        assert(rest.to_multiset() =~= s2.remove(j).to_multiset());
        lemma_sum_rewards_commutative(rest, s2.remove(j), account);
        lemma_sum_rewards_remove(s2, j, account);
    }
}

/// The union of eligible sets does not depend on the order of the
/// sources.
pub proof fn lemma_union_eligible_commutative<S: RewardSource>(s1: Seq<S>, s2: Seq<S>)
    requires
        s1.to_multiset() == s2.to_multiset(),
    ensures
        union_eligible(s1) == union_eligible(s2),
{
    assert forall|a: Seq<u8>| #![trigger union_eligible(s1).contains(a)]
        union_eligible(s1).contains(a) <==> union_eligible(s2).contains(a) by {
        if union_eligible(s1).contains(a) {
            let i = choose|i: int|
                0 <= i < s1.len() && (#[trigger] s1[i]).eligible_model().contains(a);
            assert(s1.contains(s1[i]));
            assert(s1.to_multiset().count(s1[i]) > 0);
            assert(s2.to_multiset().count(s1[i]) > 0);
            assert(s2.contains(s1[i]));
            let j = choose|j: int| 0 <= j < s2.len() && s2[j] == s1[i];
            assert(s2[j].eligible_model().contains(a));
        }
        if union_eligible(s2).contains(a) {
            let i = choose|i: int|
                0 <= i < s2.len() && (#[trigger] s2[i]).eligible_model().contains(a);
            assert(s2.contains(s2[i]));
            assert(s2.to_multiset().count(s2[i]) > 0);
            assert(s1.to_multiset().count(s2[i]) > 0);
            assert(s1.contains(s2[i]));
            let j = choose|j: int| 0 <= j < s1.len() && s1[j] == s2[i];
            assert(s1[j].eligible_model().contains(a));
        }
    }
    assert(union_eligible(s1) =~= union_eligible(s2));
}

/// An account that no source lists as eligible earns zero in total, and
/// its point query succeeds: zero, not an error.
pub proof fn lemma_ineligible_earns_zero<S: RewardSource>(sources: Seq<S>, account: Seq<u8>)
    requires
        forall|i: int| 0 <= i < sources.len() ==> (#[trigger] sources[i]).wf(),
        !union_eligible(sources).contains(account),
    ensures
        sum_rewards(sources, account) == 0,
        account_sum_ok(sources, account),
    decreases sources.len(),
{
    assert forall|i: int| 0 <= i < sources.len() implies (#[trigger] sources[i]).reward_ok(
        account,
    ) by {
        if sources[i].eligible_model().contains(account) {
            assert(union_eligible(sources).contains(account));
        }
        sources[i].lemma_ineligible_zero(account);
    }
    if sources.len() > 0 {
        let rest = sources.drop_last();
        let last = sources.last();
        if last.eligible_model().contains(account) {
            assert(union_eligible(sources).contains(account));
        }
        last.lemma_ineligible_zero(account);
        assert(!union_eligible(rest).contains(account)) by {
            if union_eligible(rest).contains(account) {
                let i = choose|i: int|
                    0 <= i < rest.len() && (#[trigger] rest[i]).eligible_model().contains(
                        account,
                    );
                assert(sources[i].eligible_model().contains(account));
                assert(union_eligible(sources).contains(account));
            }
        }
        lemma_ineligible_earns_zero(rest, account);
    }
}

/// A strictly sorted listing shows each account at most once: however
/// many tokens one address holds, a scan's sorted listing names it once.
pub proof fn lemma_sorted_listing_no_duplicates(listing: Seq<Account>)
    requires
        forall|i: int, j: int| 0 <= i < j < listing.len() ==> bytes_lt(listing[i]@, listing[j]@),
    ensures
        forall|i: int, j: int| 0 <= i < j < listing.len() ==> listing[i]@ != listing[j]@,
{
    assert forall|i: int, j: int|
        0 <= i < j < listing.len() implies listing[i]@ != listing[j]@ by {
        lemma_bytes_order_total(listing[i]@, listing[j]@);
    }
}

/// Two strictly sorted listings with the same keys, whose values are
/// fixed by their keys, are the same listing.
proof fn lemma_sorted_keyed_unique(m1: Seq<(Seq<u8>, nat)>, m2: Seq<(Seq<u8>, nat)>)
    requires
        forall|i: int, j: int| 0 <= i < j < m1.len() ==> bytes_lt(m1[i].0, m1[j].0),
        forall|i: int, j: int| 0 <= i < j < m2.len() ==> bytes_lt(m2[i].0, m2[j].0),
        forall|a: Seq<u8>| key_in(m1, a) <==> key_in(m2, a),
        forall|i: int, j: int|
            0 <= i < m1.len() && 0 <= j < m2.len() && (#[trigger] m1[i]).0 == (#[trigger] m2[j]).0
                ==> m1[i].1 == m2[j].1,
    ensures
        m1 == m2,
    decreases m1.len(),
{
    if m1.len() == 0 {
        if m2.len() > 0 {
            assert(key_in(m2, m2[0].0));
            assert(key_in(m1, m2[0].0));
        }
        assert(m1 =~= m2);
    } else {
        assert(key_in(m1, m1[0].0));
        assert(key_in(m2, m1[0].0));
        let k1 = m1[0].0;
        let k2 = m2[0].0;
        if k1 != k2 {
            let j1 = choose|j: int| 0 <= j < m2.len() && (#[trigger] m2[j]).0 == k1;
            assert(key_in(m2, k2));
            assert(key_in(m1, k2));
            let i2 = choose|i: int| 0 <= i < m1.len() && (#[trigger] m1[i]).0 == k2;
            assert(j1 != 0);
            assert(bytes_lt(k2, k1));
            assert(i2 != 0);
            assert(bytes_lt(k1, k2));
            lemma_bytes_order_total(k1, k2);
            assert(false);
        }
        assert(m1[0].1 == m2[0].1);
        let t1 = m1.drop_first();
        let t2 = m2.drop_first();
        assert forall|a: Seq<u8>| key_in(t1, a) <==> key_in(t2, a) by {
            if key_in(t1, a) {
                let i = choose|i: int| 0 <= i < t1.len() && (#[trigger] t1[i]).0 == a;
                assert(m1[i + 1].0 == a);
                assert(key_in(m1, a));
                assert(key_in(m2, a));
                let j = choose|j: int| 0 <= j < m2.len() && (#[trigger] m2[j]).0 == a;
                assert(bytes_lt(k1, a));
                if j == 0 {
                    lemma_bytes_order_total(k1, a);
                    assert(false);
                }
                assert(t2[j - 1].0 == a);
                assert(key_in(t2, a));
            }
            if key_in(t2, a) {
                let i = choose|i: int| 0 <= i < t2.len() && (#[trigger] t2[i]).0 == a;
                assert(m2[i + 1].0 == a);
                assert(key_in(m2, a));
                assert(key_in(m1, a));
                let j = choose|j: int| 0 <= j < m1.len() && (#[trigger] m1[j]).0 == a;
                assert(bytes_lt(k2, a));
                if j == 0 {
                    lemma_bytes_order_total(k2, a);
                    assert(false);
                }
                assert(t1[j - 1].0 == a);
                assert(key_in(t1, a));
            }
        }
        assert forall|i: int, j: int|
            0 <= i < t1.len() && 0 <= j < t2.len() && (#[trigger] t1[i]).0
                == (#[trigger] t2[j]).0 implies t1[i].1 == t2[j].1 by {
            assert(m1[i + 1] == t1[i]);
            assert(m2[j + 1] == t2[j]);
        }
        lemma_sorted_keyed_unique(t1, t2);
        assert forall|i: int| 0 <= i < m1.len() implies m1[i] == m2[i] by {
            if i == 0 {
                assert(m1[0].0 == m2[0].0);
                assert(m1[0].1 == m2[0].1);
                assert(m1[0] =~= m2[0]);
            } else {
                assert(t1[i - 1] == m1[i]);
                assert(t2[i - 1] == m2[i]);
            }
        }
        assert(m1 =~= m2);
    }
}

/// Determinism: two tables that are each the distribution of the same
/// sources against the same chain state agree row for row.
pub proof fn lemma_distribution_deterministic<S: RewardSource>(
    sources: Seq<S>,
    t1: RewardTable,
    t2: RewardTable,
)
    requires
        is_distribution_table(sources, t1),
        is_distribution_table(sources, t2),
    ensures
        t1.models() == t2.models(),
{
    lemma_table_requirements(sources, t1);
    lemma_table_requirements(sources, t2);
    assert forall|a: Seq<u8>| key_in(t1.models(), a) <==> key_in(t2.models(), a) by {
        lemma_key_in_bridge(sources, t1, a);
        lemma_key_in_bridge(sources, t2, a);
    }
    assert forall|i: int, j: int|
        0 <= i < t1.models().len() && 0 <= j < t2.models().len()
            && (#[trigger] t1.models()[i]).0
            == (#[trigger] t2.models()[j]).0 implies t1.models()[i].1 == t2.models()[j].1 by {
        assert(t1.models()[i].1 == sum_rewards(sources, t1.models()[i].0));
        assert(t2.models()[j].1 == sum_rewards(sources, t2.models()[j].0));
    }
    lemma_sorted_keyed_unique(t1.models(), t2.models());
}

/// A distribution table's rows are strictly sorted at the model level.
proof fn lemma_table_requirements<S: RewardSource>(sources: Seq<S>, t: RewardTable)
    requires
        is_distribution_table(sources, t),
    ensures
        forall|i: int, j: int|
            0 <= i < j < t.models().len() ==> bytes_lt(t.models()[i].0, t.models()[j].0),
{
    assert forall|i: int, j: int|
        0 <= i < j < t.models().len() implies bytes_lt(t.models()[i].0, t.models()[j].0) by {
        assert(t.models()[i].0 == t.keys()[i]);
        assert(t.models()[j].0 == t.keys()[j]);
    }
}

/// A listing key is a table key is a member of the union.
proof fn lemma_key_in_bridge<S: RewardSource>(sources: Seq<S>, t: RewardTable, a: Seq<u8>)
    requires
        is_distribution_table(sources, t),
    ensures
        key_in(t.models(), a) <==> union_eligible(sources).contains(a),
{
    if key_in(t.models(), a) {
        let i = choose|i: int| 0 <= i < t.models().len() && (#[trigger] t.models()[i]).0 == a;
        assert(t.keys()[i] == a);
        assert(t.keys().contains(a));
    }
    if union_eligible(sources).contains(a) {
        assert(t.keys().contains(a));
        let i = choose|i: int| 0 <= i < t.keys().len() && t.keys()[i] == a;
        assert(t.models()[i].0 == a);
        assert(key_in(t.models(), a));
    }
}

/// Commutativity: permuting the source list changes no row of any
/// distribution computed from it.
pub proof fn lemma_distribution_commutative<S: RewardSource>(
    s1: Seq<S>,
    s2: Seq<S>,
    t1: RewardTable,
    t2: RewardTable,
)
    requires
        s1.to_multiset() == s2.to_multiset(),
        is_distribution_table(s1, t1),
        is_distribution_table(s2, t2),
    ensures
        t1.models() == t2.models(),
{
    lemma_union_eligible_commutative(s1, s2);
    assert forall|i: int|
        0 <= i < t2.models().len() implies (#[trigger] t2.models()[i]).1 == sum_rewards(
        s1,
        t2.models()[i].0,
    ) by {
        lemma_sum_rewards_commutative(s1, s2, t2.models()[i].0);
    }
    assert(is_distribution_table(s1, t2));
    lemma_distribution_deterministic(s1, t1, t2);
}

} // verus!
