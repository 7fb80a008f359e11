//! Cross-invocation aggregation of exclusive cycle counts, keyed by region
//! name.

use crate::model::{
    entries_bounded, entry_count, find_entry, lemma_elem_le_sum, lemma_find_entry_props,
    lemma_merge_bounded, lemma_merge_sum, lemma_merge_unique, merge_entries, sum_cycles,
    unique_names, EntryModel,
};
use vstd::prelude::*;

verus! {

/// Accumulated cost of one region name over a whole session: one entry per
/// distinct name, created on the name's first completed invocation and
/// updated in place on every later one, never deleted.
pub struct AggregateEntry {
    pub name: String,
    pub invocation_count: usize,
    pub exclusive_cycles: u64,
}

impl View for AggregateEntry {
    type V = EntryModel;

    open spec fn view(&self) -> EntryModel {
        EntryModel {
            name: self.name@,
            count: self.invocation_count as int,
            cycles: self.exclusive_cycles as int,
        }
    }
}

/// The name-keyed accumulator, in order of first completion.
pub struct Aggregator {
    entries: Vec<AggregateEntry>,
}

impl View for Aggregator {
    type V = Seq<EntryModel>;

    closed spec fn view(&self) -> Seq<EntryModel> {
        self.entries@.map_values(|e: AggregateEntry| e@)
    }
}

impl Aggregator {
    /// The aggregate is a map: no two entries share a name.
    pub open spec fn wf(&self) -> bool {
        unique_names(self@)
    }

    /// The view is built from machine integers, so its numbers are bounded;
    /// stated here once so callers outside this module can rely on it.
    pub proof fn lemma_view_bounded(&self)
        ensures
            entries_bounded(self@),
            forall|i: int| #![trigger self@[i]] 0 <= i < self@.len() ==> self@[i].count
                <= usize::MAX,
    {
        assert(forall|i: int|
            #![trigger self@[i]]
            0 <= i < self@.len() ==> self@[i] == self.entries@[i]@);
    }

    pub fn new() -> (a: Aggregator)
        ensures
            a@ == Seq::<EntryModel>::empty(),
            a.wf(),
    {
        let a = Aggregator { entries: Vec::new() };
        assert(a@ =~= Seq::<EntryModel>::empty());
        a
    }

    pub fn len(&self) -> (n: usize)
        ensures
            n == self@.len(),
    {
        self.entries.len()
    }

    /// Record one completed invocation of `name` that spent `cycles`
    /// exclusive cycles: create the entry on first sight, otherwise add into
    /// the existing one.  The two bounds in the requires are machine limits:
    /// everything this session has charged, plus the new charge, must fit
    /// the counters' width.
    pub fn merge(&mut self, name: String, cycles: u64)
        requires
            old(self).wf(),
            sum_cycles(old(self)@) + cycles <= u64::MAX,
            entry_count(old(self)@, name@) < usize::MAX,
        ensures
            final(self).wf(),
            final(self)@ == merge_entries(old(self)@, name@, cycles as int),
    {
        let ghost pre = self@;
        let mut i: usize = 0;
        while i < self.entries.len()
            invariant
                self@ == pre,
                pre == old(self)@,
                unique_names(pre),
                sum_cycles(pre) + cycles <= u64::MAX,
                entry_count(pre, name@) < usize::MAX,
                i <= pre.len(),
                forall|j: int| #![trigger pre[j]] 0 <= j < i ==> pre[j].name != name@,
            decreases pre.len() - i,
        {
            assert(self.entries@[i as int]@ == pre[i as int]);
            if self.entries[i].name == name {
                proof {
                    self.lemma_view_bounded();
                    lemma_find_entry_props(pre, name@);
                    assert(pre[i as int].name == name@);
                    assert(find_entry(pre, name@) == i as int) by {
                        let k = find_entry(pre, name@);
                        if k < i as int && k >= 0 {
                            assert(pre[k].name != name@);
                        } else if k > i as int {
                            assert(pre[i as int].name != name@);
                        }
                    }
                    lemma_elem_le_sum(pre, i as int);
                    lemma_merge_sum(pre, name@, cycles as int);
                    lemma_merge_unique(pre, name@, cycles as int);
                }
                let c = self.entries[i].invocation_count;
                let cy = self.entries[i].exclusive_cycles;
                assert(entry_count(pre, name@) == c as int);
                self.entries[i].invocation_count = c + 1;
                self.entries[i].exclusive_cycles = cy + cycles;
                assert(self@ =~= merge_entries(pre, name@, cycles as int));
                return;
            }
            i += 1;
        }
        proof {
            lemma_find_entry_props(pre, name@);
            assert(find_entry(pre, name@) == -1) by {
                let k = find_entry(pre, name@);
                if k >= 0 {
                    assert(pre[k].name != name@);
                }
            }
            lemma_merge_sum(pre, name@, cycles as int);
            lemma_merge_unique(pre, name@, cycles as int);
        }
        self.entries.push(
            AggregateEntry { name, invocation_count: 1, exclusive_cycles: cycles },
        );
        assert(self@ =~= merge_entries(pre, name@, cycles as int));
    }

    /// A copy of the aggregate for reporting, in first-completion order.
    pub fn snapshot(&self) -> (r: Vec<AggregateEntry>)
        ensures
            r@.map_values(|e: AggregateEntry| e@) == self@,
    {
        let mut r: Vec<AggregateEntry> = Vec::new();
        let mut i: usize = 0;
        while i < self.entries.len()
            invariant
                i <= self@.len(),
                r@.len() == i,
                forall|j: int|
                    #![trigger r@[j]]
                    0 <= j < i ==> r@[j]@ == self@[j],
            decreases self@.len() - i,
        {
            assert(self.entries@[i as int]@ == self@[i as int]);
            let e = AggregateEntry {
                name: self.entries[i].name.clone(),
                invocation_count: self.entries[i].invocation_count,
                exclusive_cycles: self.entries[i].exclusive_cycles,
            };
            r.push(e);
            i += 1;
        }
        assert(r@.map_values(|e: AggregateEntry| e@) =~= self@);
        r
    }
}

} // verus!
