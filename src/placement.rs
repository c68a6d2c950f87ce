//! The coordinator's count of accounts per node, and the choice of the node
//! that gets the next account.

use vstd::prelude::*;

verus! {

pub struct AccountNums {
    nums: Vec<u64>,
}

impl AccountNums {
    /// The number of accounts of each node, by node.
    pub closed spec fn counts(&self) -> Seq<u64> {
        self.nums@
    }

    pub fn new(nums: Vec<u64>) -> (r: AccountNums)
        ensures
            r.counts() == nums@,
    {
        AccountNums { nums }
    }

    pub fn get_nums(&self) -> (r: &Vec<u64>)
        ensures
            r@ == self.counts(),
    {
        &self.nums
    }

    /// Records a new node with `n` accounts.
    pub fn add_num(&mut self, n: u64)
        ensures
            final(self).counts() == old(self).counts().push(n),
    {
        self.nums.push(n);
    }

    /// Sets the number of accounts of node `id`.
    pub fn set_num(&mut self, id: usize, n: u64)
        requires
            id < old(self).counts().len(),
        ensures
            final(self).counts() == old(self).counts().update(id as int, n),
    {
        self.nums.set(id, n);
    }

    /// The node with the fewest accounts, the first of them on a tie;
    /// `None` if there is no node.
    pub fn least_loaded(&self) -> (r: Option<usize>)
        ensures
            match r {
                Some(i) => i < self.counts().len() && (forall|j: int|
                    0 <= j < self.counts().len() ==> self.counts()[i as int] <= #[trigger] self.counts()[j]) && (
                forall|j: int| 0 <= j < i ==> self.counts()[i as int] < #[trigger] self.counts()[j]),
                None => self.counts().len() == 0,
            },
    {
        if self.nums.len() == 0 {
            return None;
        }
        let mut best: usize = 0;
        let mut i: usize = 1;
        while i < self.nums.len()
            invariant
                1 <= i <= self.nums@.len(),
                best < i,
                forall|j: int| 0 <= j < i ==> self.nums@[best as int] <= #[trigger] self.nums@[j],
                forall|j: int| 0 <= j < best ==> self.nums@[best as int] < #[trigger] self.nums@[j],
            decreases self.nums@.len() - i,
        {
            if self.nums[i] < self.nums[best] {
                best = i;
            }
            i = i + 1;
        }
        Some(best)
    }
}

} // verus!
