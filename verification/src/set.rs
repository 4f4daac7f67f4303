//! Deduplicated sets of accounts.

use vstd::prelude::*;

use crate::account::{bytes_lt, lemma_bytes_order_total, Account};

verus! {

broadcast use vstd::seq_lib::lemma_seq_contains_after_push;

/// The set of byte strings that stand in the first `k` places of `models`.
pub open spec fn prefix_set(models: Seq<Seq<u8>>, k: int) -> Set<Seq<u8>> {
    Set::new(|a: Seq<u8>| exists|i: int| 0 <= i < k && models[i] == a)
}

/// A set of accounts: no account appears twice, however many times it is
/// inserted.
pub struct EligibleSet {
    items: Vec<Account>,
}

impl View for EligibleSet {
    type V = Set<Seq<u8>>;

    open spec fn view(&self) -> Set<Seq<u8>> {
        Set::new(|a: Seq<u8>| self.models().contains(a))
    }
}

impl EligibleSet {
    /// The canonical byte strings of the members, in insertion order.
    pub closed spec fn models(&self) -> Seq<Seq<u8>> {
        self.items@.map_values(|a: Account| a@)
    }

    /// Every member is well formed and no two members are equal.
    pub closed spec fn wf(&self) -> bool {
        &&& forall|i: int| 0 <= i < self.items@.len() ==> (#[trigger] self.items@[i]).wf()
        &&& forall|i: int, j: int|
            0 <= i < j < self.items@.len() ==> self.items@[i]@ != self.items@[j]@
    }

    /// The empty set.
    pub fn new() -> (r: EligibleSet)
        ensures
            r.wf(),
            r@ == Set::<Seq<u8>>::empty(),
            r.models() == Seq::<Seq<u8>>::empty(),
    {
        let r = EligibleSet { items: Vec::new() };
        proof {
            assert(r.models() =~= Seq::<Seq<u8>>::empty());
            assert(r@ =~= Set::<Seq<u8>>::empty());
        }
        r
    }

    /// How many distinct accounts the set holds.
    pub fn len(&self) -> (r: usize)
        ensures
            r == self.models().len(),
    {
        self.items.len()
    }

    /// The member at one position of the insertion order.
    pub fn get(&self, i: usize) -> (r: &Account)
        requires
            i < self.models().len(),
        ensures
            r@ == self.models()[i as int],
            self.wf() ==> r.wf(),
    {
        &self.items[i]
    }

    /// Whether an account is a member.
    pub fn contains(&self, a: &Account) -> (r: bool)
        ensures
            r == self@.contains(a@),
    {
        let mut i: usize = 0;
        while i < self.items.len()
            invariant
                i <= self.items@.len(),
                forall|j: int| 0 <= j < i ==> self.models()[j] != a@,
            decreases self.items@.len() - i,
        {
            if self.items[i].eq(a) {
                proof {
                    assert(self.models()[i as int] == a@);
                }
                return true;
            }
            i += 1;
        }
        false
    }

    /// Inserts an account; a member inserted again leaves the set as it
    /// was.
    pub fn insert(&mut self, a: Account)
        requires
            old(self).wf(),
            a.wf(),
        ensures
            final(self).wf(),
            final(self)@ == old(self)@.insert(a@),
    {
        if !self.contains(&a) {
            let ghost before = self.models();
            self.items.push(a);
            proof {
                assert(self.models() =~= before.push(a@));
                assert forall|i: int, j: int|
                    0 <= i < j < self.items@.len() implies self.items@[i]@ != self.items@[j]@ by {
                    if j == self.items@.len() - 1 {
                        assert(before[i] == self.items@[i]@);
                    }
                }
                assert(self@ =~= old(self)@.insert(a@));
            }
        } else {
            proof {
                assert(self@ =~= old(self)@.insert(a@));
            }
        }
    }

    /// Inserts every member of another set.
    pub fn insert_all(&mut self, other: &EligibleSet)
        requires
            old(self).wf(),
            other.wf(),
        ensures
            final(self).wf(),
            final(self)@ == old(self)@.union(other@),
    {
        let mut i: usize = 0;
        let n = other.len();
        while i < n
            invariant
                self.wf(),
                other.wf(),
                n == other.models().len(),
                i <= n,
                self@ == old(self)@.union(prefix_set(other.models(), i as int)),
            decreases n - i,
        {
            let a = other.get(i).clone();
            let ghost before = self@;
            self.insert(a);
            proof {
                assert(self@ =~= old(self)@.union(prefix_set(other.models(), i + 1)));
            }
            i += 1;
        }
        proof {
            assert(prefix_set(other.models(), n as int) =~= other@);
            assert(self@ =~= old(self)@.union(other@));
        }
    }

    /// The members, sorted in strictly ascending canonical byte order.
    pub fn to_sorted_vec(&self) -> (r: Vec<Account>)
        requires
            self.wf(),
        ensures
            forall|i: int, j: int| 0 <= i < j < r@.len() ==> bytes_lt(r@[i]@, r@[j]@),
            members_of(r@) == self@,
            forall|i: int| 0 <= i < r@.len() ==> (#[trigger] r@[i]).wf(),
    {
        let mut out: Vec<Account> = Vec::new();
        let n = self.items.len();
        let mut i: usize = 0;
        proof {
            assert(members_of(out@) =~= prefix_set(self.models(), 0));
        }
        while i < n
            invariant
                self.wf(),
                n == self.items@.len(),
                i <= n,
                forall|k: int, l: int| 0 <= k < l < out@.len() ==> bytes_lt(out@[k]@, out@[l]@),
                members_of(out@) == prefix_set(self.models(), i as int),
                forall|k: int| 0 <= k < out@.len() ==> (#[trigger] out@[k]).wf(),
            decreases n - i,
        {
            let a = self.items[i].clone();
            let ghost old_out = out@;
            proof {
                // the member is new: the set holds no duplicates
                assert forall|k: int| 0 <= k < old_out.len() implies old_out[k]@ != a@ by {
                    if old_out[k]@ == a@ {
                        assert(members_of(old_out).contains(a@));
                        let m = choose|m: int| 0 <= m < i && self.models()[m] == a@;
                        assert(self.items@[m]@ == self.items@[i as int]@);
                    }
                }
            }
            let mut p: usize = 0;
            while p < out.len() && out[p].lt(&a)
                invariant
                    p <= out@.len(),
                    out@ == old_out,
                    a.wf(),
                    forall|k: int| 0 <= k < out@.len() ==> (#[trigger] out@[k]).wf(),
                    forall|q: int| 0 <= q < p ==> bytes_lt(out@[q]@, a@),
                decreases out@.len() - p,
            {
                p += 1;
            }
            proof {
                if p < old_out.len() {
                    lemma_bytes_order_total(old_out[p as int]@, a@);
                    assert(bytes_lt(a@, old_out[p as int]@));
                }
            }
            out.insert(p, a);
            proof {
                assert forall|k: int, l: int|
                    0 <= k < l < out@.len() implies bytes_lt(out@[k]@, out@[l]@) by {
                    if l < p {
                    } else if k < p && l == p {
                    } else if k < p && l > p {
                        assert(out@[l]@ == old_out[l - 1]@);
                    } else if k == p {
                        assert(out@[l]@ == old_out[l - 1]@);
                        assert(bytes_lt(a@, old_out[p as int]@));
                        if l - 1 > p {
                            crate::account::lemma_bytes_lt_trans(
                                a@,
                                old_out[p as int]@,
                                old_out[l - 1]@,
                            );
                        }
                    } else {
                        assert(out@[k]@ == old_out[k - 1]@);
                        assert(out@[l]@ == old_out[l - 1]@);
                    }
                }
                assert forall|x: Seq<u8>| #![trigger members_of(out@).contains(x)]
                    members_of(out@).contains(x) <==> prefix_set(self.models(), i + 1).contains(
                    x,
                ) by {
                    if members_of(out@).contains(x) {
                        let k = choose|k: int| 0 <= k < out@.len() && out@[k]@ == x;
                        if k < p {
                            assert(old_out[k]@ == x);
                            assert(members_of(old_out).contains(x));
                            let m = choose|m: int| 0 <= m < i && self.models()[m] == x;
                            assert(prefix_set(self.models(), i + 1).contains(x));
                        } else if k == p {
                            assert(x == self.models()[i as int]);
                            assert(prefix_set(self.models(), i + 1).contains(x));
                        } else {
                            assert(old_out[k - 1]@ == x);
                            assert(members_of(old_out).contains(x));
                            let m = choose|m: int| 0 <= m < i && self.models()[m] == x;
                            assert(prefix_set(self.models(), i + 1).contains(x));
                        }
                    }
                    if prefix_set(self.models(), i + 1).contains(x) {
                        let m = choose|m: int| 0 <= m < i + 1 && self.models()[m] == x;
                        if m < i {
                            assert(prefix_set(self.models(), i as int).contains(x));
                            assert(members_of(old_out).contains(x));
                            let k = choose|k: int| 0 <= k < old_out.len() && old_out[k]@ == x;
                            if k < p {
                                assert(out@[k]@ == x);
                            } else {
                                assert(out@[k + 1]@ == x);
                            }
                            assert(members_of(out@).contains(x));
                        } else {
                            assert(out@[p as int]@ == x);
                            assert(members_of(out@).contains(x));
                        }
                    }
                }
                assert(members_of(out@) =~= prefix_set(self.models(), i + 1));
            }
            i += 1;
        }
        proof {
            assert forall|x: Seq<u8>| #![trigger self@.contains(x)]
                prefix_set(self.models(), n as int).contains(x) <==> self@.contains(x) by {
                if prefix_set(self.models(), n as int).contains(x) {
                    let m = choose|m: int| 0 <= m < n && self.models()[m] == x;
                    assert(self.models().contains(x));
                }
                if self@.contains(x) {
                    let k = choose|k: int|
                        0 <= k < self.models().len() && self.models()[k] == x;
                    assert(prefix_set(self.models(), n as int).contains(x));
                }
            }
            assert(members_of(out@) =~= self@);
        }
        out
    }
}

/// The set of canonical byte strings that a list of accounts shows.
pub open spec fn members_of(accounts: Seq<Account>) -> Set<Seq<u8>> {
    Set::new(|a: Seq<u8>| exists|k: int| 0 <= k < accounts.len() && accounts[k]@ == a)
}

} // verus!
