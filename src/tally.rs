//! A table of quantities keyed by an exact-comparable key: each key holds one
//! non-negative count, and the count of a key that has no entry is zero.

use vstd::prelude::*;
use crate::sums::{
    lemma_sum_nonneg, lemma_sum_push, lemma_sum_single, lemma_sum_update, lemma_sum_zeros, seq_sum,
};

verus! {

/// A key that can be compared and copied in executable code, as its view says.
pub trait TallyKey: View + Sized {
    fn same(&self, other: &Self) -> (r: bool)
        ensures
            r == (self@ == other@),
    ;

    fn duplicate(&self) -> (r: Self)
        ensures
            r@ == self@,
    ;
}

impl TallyKey for String {
    fn same(&self, other: &Self) -> (r: bool) {
        *self == *other
    }

    fn duplicate(&self) -> (r: Self) {
        self.clone()
    }
}

impl TallyKey for (String, u64) {
    fn same(&self, other: &Self) -> (r: bool) {
        self.0 == other.0 && self.1 == other.1
    }

    fn duplicate(&self) -> (r: Self) {
        (self.0.clone(), self.1)
    }
}

/// The count that entry `e` contributes to key `k`.
pub open spec fn share<K: View>(e: (K, u64), k: K::V) -> int {
    if e.0@ == k {
        e.1 as int
    } else {
        0
    }
}

/// The counts that the entries of `s` contribute to key `k`.
pub open spec fn shares<K: View>(s: Seq<(K, u64)>, k: K::V) -> Seq<int> {
    s.map_values(|e: (K, u64)| share(e, k))
}

pub struct Tally<K> {
    pub entries: Vec<(K, u64)>,
}

impl<K: TallyKey> Tally<K> {
    /// No two entries have the same key.
    pub open spec fn wf(&self) -> bool {
        forall|i: int, j: int|
            0 <= i < j < self.entries@.len() ==> self.entries@[i].0@ != self.entries@[j].0@
    }

    /// The count held under key `k`.
    pub open spec fn amount(&self, k: K::V) -> int {
        seq_sum(shares(self.entries@, k))
    }

    /// Every key holds a count of zero.
    pub open spec fn is_empty_spec(&self) -> bool {
        forall|k: K::V| #[trigger] self.amount(k) == 0
    }

    pub fn new() -> (r: Self)
        ensures
            r.wf(),
            r.entries@.len() == 0,
            r.is_empty_spec(),
    {
        let r = Tally { entries: Vec::new() };
        proof {
            assert forall|k: K::V| #[trigger] r.amount(k) == 0 by {
                assert(shares(r.entries@, k).len() == 0);
            }
        }
        r
    }

    /// With distinct keys the count of a key is that of the entry that holds it.
    pub proof fn lemma_amount_at(&self, i: int)
        requires
            self.wf(),
            0 <= i < self.entries@.len(),
        ensures
            self.amount(self.entries@[i].0@) == self.entries@[i].1,
    {
        let k = self.entries@[i].0@;
        let s = shares(self.entries@, k);
        assert forall|j: int| 0 <= j < s.len() && j != i implies s[j] == 0 by {
            if j < i {
                assert(self.entries@[j].0@ != self.entries@[i].0@);
            } else {
                assert(self.entries@[i].0@ != self.entries@[j].0@);
            }
        }
        lemma_sum_single(s, i);
    }

    /// A key that no entry holds has a count of zero.
    pub proof fn lemma_amount_absent(&self, k: K::V)
        requires
            forall|j: int| 0 <= j < self.entries@.len() ==> self.entries@[j].0@ != k,
        ensures
            self.amount(k) == 0,
    {
        lemma_sum_zeros(shares(self.entries@, k));
    }

    /// Counts are never negative.
    pub proof fn lemma_amount_nonneg(&self, k: K::V)
        ensures
            self.amount(k) >= 0,
    {
        lemma_sum_nonneg(shares(self.entries@, k));
    }

    /// The position of the entry for `k`, if there is one.
    pub fn find(&self, k: &K) -> (r: Option<usize>)
        ensures
            match r {
                Some(i) => i < self.entries@.len() && self.entries@[i as int].0@ == k@,
                None => forall|j: int|
                    0 <= j < self.entries@.len() ==> self.entries@[j].0@ != k@,
            },
    {
        let mut i: usize = 0;
        while i < self.entries.len()
            invariant
                i <= self.entries@.len(),
                forall|j: int| 0 <= j < i ==> self.entries@[j].0@ != k@,
            decreases self.entries@.len() - i,
        {
            if self.entries[i].0.same(k) {
                return Some(i);
            }
            i = i + 1;
        }
        None
    }

    /// The count held under `k`.
    pub fn get(&self, k: &K) -> (r: u64)
        requires
            self.wf(),
        ensures
            r == self.amount(k@),
    {
        match self.find(k) {
            Some(i) => {
                proof {
                    self.lemma_amount_at(i as int);
                }
                self.entries[i].1
            },
            None => {
                proof {
                    self.lemma_amount_absent(k@);
                }
                0
            },
        }
    }

    /// Whether some key holds a count other than zero.
    pub fn any_nonzero(&self) -> (r: bool)
        requires
            self.wf(),
        ensures
            r == !self.is_empty_spec(),
    {
        let mut i: usize = 0;
        while i < self.entries.len()
            invariant
                self.wf(),
                i <= self.entries@.len(),
                forall|j: int| 0 <= j < i ==> self.entries@[j].1 == 0,
            decreases self.entries@.len() - i,
        {
            if self.entries[i].1 != 0 {
                proof {
                    self.lemma_amount_at(i as int);
                }
                return true;
            }
            i = i + 1;
        }
        proof {
            assert forall|k: K::V| #[trigger] self.amount(k) == 0 by {
                lemma_sum_zeros(shares(self.entries@, k));
            }
        }
        false
    }

    /// Adds `q` to the count of `k`, in the entry that holds `k` or in a new last entry.
    pub fn add(&mut self, k: K, q: u64) -> (i: usize)
        requires
            old(self).wf(),
            old(self).amount(k@) + q <= u64::MAX,
        ensures
            final(self).wf(),
            forall|x: K::V| #[trigger] final(self).amount(x)
                == old(self).amount(x) + if x == k@ { q as int } else { 0 },
            (i < old(self).entries@.len() && old(self).entries@[i as int].0@ == k@
                && final(self).entries@ == old(self).entries@.update(
                i as int,
                (old(self).entries@[i as int].0, (old(self).entries@[i as int].1 + q) as u64),
            )) || (i == old(self).entries@.len() && final(self).entries@ == old(
                self,
            ).entries@.push((k, q))),
    {
        let ghost before = self.entries@;
        match self.find(&k) {
            Some(i) => {
                proof {
                    old(self).lemma_amount_at(i as int);
                }
                let cur = self.entries[i].1;
                self.entries[i].1 = cur + q;
                proof {
                    assert(self.entries@ =~= before.update(i as int, (before[i as int].0, (before[i as int].1 + q) as u64)));
                    assert forall|x: K::V| #[trigger] self.amount(x)
                        == old(self).amount(x) + if x == k@ { q as int } else { 0 } by {
                        assert(shares(self.entries@, x) =~= shares(before, x).update(i as int, share(self.entries@[i as int], x)));
                        lemma_sum_update(shares(before, x), i as int, share(self.entries@[i as int], x));
                    }
                }
                i
            },
            None => {
                let n = self.entries.len();
                self.entries.push((k, q));
                proof {
                    assert forall|x: K::V| #[trigger] self.amount(x)
                        == old(self).amount(x) + if x == k@ { q as int } else { 0 } by {
                        assert(shares(self.entries@, x) =~= shares(before, x).push(share(self.entries@[n as int], x)));
                        lemma_sum_push(shares(before, x), share(self.entries@[n as int], x));
                    }
                }
                n
            },
        }
    }

    /// Takes up to `q` from the count of `k` and returns how much was taken.
    pub fn take(&mut self, k: &K, q: u64) -> (d: u64)
        requires
            old(self).wf(),
        ensures
            final(self).wf(),
            d as int == if old(self).amount(k@) < q { old(self).amount(k@) } else { q as int },
            forall|x: K::V| #[trigger] final(self).amount(x)
                == old(self).amount(x) - if x == k@ { d as int } else { 0 },
            (d == 0 && final(self).entries@ == old(self).entries@) || (exists|i: int|
                0 <= i < old(self).entries@.len() && old(self).entries@[i].0@ == k@
                    && final(self).entries@ == old(self).entries@.update(
                    i,
                    (old(self).entries@[i].0, (old(self).entries@[i].1 - d) as u64),
                )),
    {
        let ghost before = self.entries@;
        match self.find(k) {
            Some(i) => {
                proof {
                    old(self).lemma_amount_at(i as int);
                }
                let cur = self.entries[i].1;
                let d = if cur < q { cur } else { q };
                self.entries[i].1 = cur - d;
                proof {
                    assert(self.entries@ =~= before.update(i as int, (before[i as int].0, (before[i as int].1 - d) as u64)));
                    assert forall|x: K::V| #[trigger] self.amount(x)
                        == old(self).amount(x) - if x == k@ { d as int } else { 0 } by {
                        assert(shares(self.entries@, x) =~= shares(before, x).update(i as int, share(self.entries@[i as int], x)));
                        lemma_sum_update(shares(before, x), i as int, share(self.entries@[i as int], x));
                    }
                }
                d
            },
            None => {
                proof {
                    old(self).lemma_amount_absent(k@);
                }
                0
            },
        }
    }
}

} // verus!
