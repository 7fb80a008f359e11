//! One profiling session: a call stack and an aggregator owned together,
//! driven by explicit region entry and exit calls.
//!
//! Every operation takes the current cycle-counter reading as an argument.
//! Readings must never decrease — the hardware counter is monotonic — and
//! under that single assumption the session invariant `inv` holds: all
//! cycles ever charged fit between reading 0 and the latest reading, so no
//! counter in the aggregate can overflow.

use crate::aggregate::{AggregateEntry, Aggregator};
use crate::model::{
    entry_count, inv, lemma_merge_bounded, lemma_merge_sum, lemma_merge_unique, merge_entries,
    step_enter, step_exit, FrameModel, ProfilerModel,
};
use crate::stack::CallStack;
use vstd::prelude::*;

verus! {

/// A token bound to one region activation.  `Profiler::begin_region` hands
/// it out and `Profiler::end_region` consumes it, so each activation is
/// released exactly once; release must happen on every exit path from the
/// measured scope, or later pops misattribute time to unrelated regions.
pub struct RegionGuard {
    pub name: String,
    pub start: u64,
}

/// A profiling session.  Owns its own `CallStack` and `Aggregator`, so
/// independent sessions can run side by side and tests can drive one in
/// isolation.
pub struct Profiler {
    stack: CallStack,
    agg: Aggregator,
    last: u64,
}

impl View for Profiler {
    type V = ProfilerModel;

    closed spec fn view(&self) -> ProfilerModel {
        ProfilerModel { stack: self.stack@, entries: self.agg@, last: self.last as int }
    }
}

impl Profiler {
    /// The session invariant; established by `new` and preserved by every
    /// operation whose readings never decrease.
    pub open spec fn wf(&self) -> bool {
        inv(self@)
    }

    pub fn new() -> (p: Profiler)
        ensures
            p@ == crate::model::init_model(),
            p.wf(),
    {
        let p = Profiler { stack: CallStack::new(), agg: Aggregator::new(), last: 0 };
        p
    }

    /// Number of currently active regions.
    pub fn depth(&self) -> (n: usize)
        ensures
            n == self@.stack.len(),
    {
        self.stack.len()
    }

    /// Number of distinct region names aggregated so far.
    pub fn entry_len(&self) -> (n: usize)
        ensures
            n == self@.entries.len(),
    {
        self.agg.len()
    }

    /// The latest cycle reading this session has seen; later calls must not
    /// pass a smaller one.
    pub fn last_reading(&self) -> (t: u64)
        ensures
            t == self@.last,
    {
        self.last
    }

    /// Enter region `name` at counter reading `now`: push a frame and hand
    /// out the activation's guard.
    pub fn begin_region(&mut self, name: String, now: u64) -> (g: RegionGuard)
        requires
            old(self).wf(),
            now >= old(self)@.last,
        ensures
            final(self).wf(),
            final(self)@ == step_enter(old(self)@, name@, now as int),
            g.name@ == name@,
            g.start == now,
    {
        let ghost pre = self@;
        proof {
            assert(self.stack.wf());
            if pre.stack.len() > 0 {
                assert(pre.stack.last().start <= pre.last);
            }
        }
        let g = RegionGuard { name: name.clone(), start: now };
        self.stack.push(name, now);
        self.last = now;
        proof {
            let m = self@;
            assert(m.stack == pre.stack.push(FrameModel { name: g.name@, start: now as int }));
            assert(m == step_enter(pre, g.name@, now as int));
            assert forall|i: int, j: int| 0 <= i < j < m.stack.len() implies m.stack[i].start
                <= m.stack[j].start by {
                if j < m.stack.len() - 1 {
                    assert(pre.stack[i].start <= pre.stack[j].start);
                } else if i < m.stack.len() - 1 {
                    assert(pre.stack[i].start <= pre.stack.last().start);
                }
            }
            assert(inv(m));
        }
        g
    }

    /// Leave the innermost active region at counter reading `now`,
    /// consuming its guard: pop the frame, charge it `now` minus its
    /// adjusted start, advance the remaining frames, and merge the result
    /// into the aggregate.  Returns the completed region's name and its
    /// exclusive cycle count.  The count bound in the requires is a machine
    /// limit: one more completed invocation of the region must still be
    /// countable.
    pub fn end_region(&mut self, guard: RegionGuard, now: u64) -> (r: (String, u64))
        requires
            old(self).wf(),
            old(self)@.stack.len() > 0,
            now >= old(self)@.last,
            entry_count(old(self)@.entries, old(self)@.stack.last().name) < usize::MAX,
        ensures
            final(self).wf(),
            final(self)@ == step_exit(old(self)@, now as int),
            r.0@ == old(self)@.stack.last().name,
            r.1 == now - old(self)@.stack.last().start,
    {
        let RegionGuard { name: _, start: _ } = guard;
        let ghost pre = self@;
        let ghost top = pre.stack.last();
        let ghost c = now as int - top.start;
        proof {
            assert(self.stack.wf());
            assert(top.start <= pre.last);
            if pre.stack.len() > 1 {
                assert(pre.stack[0].start <= pre.stack[pre.stack.len() - 1].start);
            }
            self.agg.lemma_view_bounded();
        }
        let (popped, cycles) = self.stack.pop(now);
        let returned = popped.clone();
        proof {
            assert(crate::model::sum_cycles(pre.entries) + cycles <= u64::MAX);
        }
        self.agg.merge(popped, cycles);
        self.last = now;
        proof {
            let m = self@;
            assert(m.entries == merge_entries(pre.entries, top.name, c));
            assert(m.stack == crate::model::adjust(pre.stack.drop_last(), c));
            assert(m == step_exit(pre, now as int));
            lemma_merge_sum(pre.entries, top.name, c);
            lemma_merge_unique(pre.entries, top.name, c);
            lemma_merge_bounded(pre.entries, top.name, c);
            assert forall|i: int, j: int| 0 <= i < j < m.stack.len() implies m.stack[i].start
                <= m.stack[j].start by {
                assert(pre.stack[i].start <= pre.stack[j].start);
            }
            assert forall|i: int| 0 <= i < m.stack.len() implies 0 <= #[trigger] m.stack[i].start by {
                assert(pre.stack[i].start >= 0);
            }
            if m.stack.len() > 0 {
                assert(pre.stack[m.stack.len() - 1].start <= top.start);
                assert(m.stack.last().start <= now as int);
                assert(pre.stack[0].start <= top.start);
            }
            assert(inv(m));
        }
        (returned, cycles)
    }

    /// A copy of the aggregate, one entry per region name, in order of
    /// first completion.
    pub fn snapshot(&self) -> (r: Vec<AggregateEntry>)
        ensures
            r@.map_values(|e: AggregateEntry| e@) == self@.entries,
    {
        self.agg.snapshot()
    }
}

} // verus!
