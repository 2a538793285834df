use vstd::prelude::*;
use crate::rng::random_range;

verus! {

/// The sum of the weights of `items`.
pub open spec fn weight_sum<T>(items: Seq<(T, i32)>) -> int
    decreases items.len(),
{
    if items.len() == 0 {
        0
    } else {
        items[0].1 + weight_sum(items.drop_first())
    }
}

proof fn lemma_weight_sum_nonneg<T>(items: Seq<(T, i32)>)
    requires
        forall|i: int| 0 <= i < items.len() ==> (#[trigger] items[i]).1 >= 0,
    ensures
        weight_sum(items) >= 0,
    decreases items.len(),
{
    if items.len() > 0 {
        assert forall|i: int| 0 <= i < items.drop_first().len() implies (#[trigger] items.drop_first()[i]).1 >= 0 by {
            assert(items.drop_first()[i] == items[i + 1]);
        }
        lemma_weight_sum_nonneg(items.drop_first());
    }
}

/// A table of entries drawn at random in proportion to their weights.
/// Each entry is stored with the running total of the weights up to it.
pub struct RandomTable<T> {
    entries: Vec<(i32, T)>,
    total_weight: i32,
}

impl<T> RandomTable<T> {
    /// The entries with the running totals of the weights.
    pub closed spec fn spec_entries(&self) -> Seq<(i32, T)> {
        self.entries@
    }

    pub closed spec fn spec_total(&self) -> i32 {
        self.total_weight
    }

    /// Running totals never decrease, start at least at 0, and the last one
    /// is the total weight.
    pub open spec fn wf(&self) -> bool {
        let e = self.spec_entries();
        &&& self.spec_total() >= 0
        &&& (e.len() == 0 ==> self.spec_total() == 0)
        &&& (e.len() > 0 ==> e.last().0 == self.spec_total())
        &&& forall|i: int| 0 <= i < e.len() ==> 0 <= (#[trigger] e[i]).0 <= self.spec_total()
        &&& forall|i: int, j: int| 0 <= i < j < e.len() ==> (#[trigger] e[i]).0 <= (#[trigger] e[j]).0
    }

    pub fn new() -> (r: RandomTable<T>)
        ensures
            r.wf(),
            r.spec_entries().len() == 0,
            r.spec_total() == 0,
    {
        RandomTable { entries: Vec::new(), total_weight: 0 }
    }

    /// Adds `entry` with chance proportional to `weight`.
    pub fn add(&mut self, entry: T, weight: i32)
        requires
            old(self).wf(),
            weight >= 0,
            old(self).spec_total() + weight <= i32::MAX,
        ensures
            final(self).wf(),
            final(self).spec_total() == old(self).spec_total() + weight,
            final(self).spec_entries() == old(self).spec_entries().push(
                (final(self).spec_total(), entry),
            ),
    {
        self.total_weight = self.total_weight + weight;
        self.entries.push((self.total_weight, entry));
    }

    /// Adds each `(entry, weight)` in order.
    pub fn extend(&mut self, items: Vec<(T, i32)>)
        requires
            old(self).wf(),
            forall|i: int| 0 <= i < items@.len() ==> (#[trigger] items@[i]).1 >= 0,
            old(self).spec_total() + weight_sum(items@) <= i32::MAX,
        ensures
            final(self).wf(),
            final(self).spec_total() == old(self).spec_total() + weight_sum(items@),
            final(self).spec_entries().len() == old(self).spec_entries().len() + items@.len(),
            old(self).spec_entries().is_prefix_of(final(self).spec_entries()),
    {
        let ghost all = items@;
        let mut items = items;
        while items.len() > 0
            invariant
                self.wf(),
                forall|i: int| 0 <= i < items@.len() ==> (#[trigger] items@[i]).1 >= 0,
                self.spec_total() + weight_sum(items@) == old(self).spec_total() + weight_sum(all),
                old(self).spec_total() + weight_sum(all) <= i32::MAX,
                self.spec_entries().len() + items@.len() == old(self).spec_entries().len() + all.len(),
                old(self).spec_entries().is_prefix_of(self.spec_entries()),
            decreases items@.len(),
        {
            let ghost before = items@;
            proof {
                lemma_weight_sum_nonneg(before.drop_first());
                assert forall|i: int| 0 <= i < before.drop_first().len() implies (#[trigger] before.drop_first()[i]).1 >= 0 by {
                    assert(before.drop_first()[i] == before[i + 1]);
                }
            }
            let (entry, weight) = items.remove(0);
            proof {
                assert(items@ =~= before.drop_first());
            }
            self.add(entry, weight);
        }
    }

    /// Removes every entry.
    pub fn clear(&mut self)
        ensures
            final(self).wf(),
            final(self).spec_entries().len() == 0,
            final(self).spec_total() == 0,
    {
        self.entries.clear();
        self.total_weight = 0;
    }

    /// The entry that a draw of `w` picks: the first whose running total
    /// reaches `w`.
    pub fn select(&self, w: i32) -> (r: &T)
        requires
            self.wf(),
            1 <= w <= self.spec_total(),
        ensures
            exists|i: int|
                0 <= i < self.spec_entries().len() && self.spec_entries()[i].0 >= w && (i == 0
                    || self.spec_entries()[i - 1].0 < w) && *r == self.spec_entries()[i].1,
    {
        let mut lo: usize = 0;
        let mut hi: usize = self.entries.len() - 1;
        while lo < hi
            invariant
                self.wf(),
                1 <= w <= self.spec_total(),
                lo <= hi < self.entries@.len(),
                self.entries@[hi as int].0 >= w,
                lo == 0 || self.entries@[lo - 1].0 < w,
            decreases hi - lo,
        {
            let mid = lo + (hi - lo) / 2;
            if self.entries[mid].0 >= w {
                hi = mid;
            } else {
                lo = mid + 1;
            }
        }
        &self.entries[lo].1
    }

    /// Draws an entry, each with chance proportional to its weight.
    pub fn roll(&self) -> (r: &T)
        requires
            self.wf(),
            self.spec_total() >= 1,
        ensures
            exists|i: int| 0 <= i < self.spec_entries().len() && *r == self.spec_entries()[i].1,
    {
        let w = random_range(1, self.total_weight);
        self.select(w)
    }
}

} // verus!
