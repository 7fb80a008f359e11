//! The call stack of active region frames.
//!
//! `pop` implements the parent-adjustment device: the completed frame's
//! exclusive cycle count is added to every remaining frame's start, so each
//! ancestor's own eventual `end - start` automatically excludes all
//! descendant time, without separate inclusive and exclusive counters.

use crate::model::{adjust, FrameModel};
use vstd::prelude::*;

verus! {

/// One active region: its name and its adjusted start reading.
pub struct Frame {
    pub name: String,
    pub start: u64,
}

impl View for Frame {
    type V = FrameModel;

    open spec fn view(&self) -> FrameModel {
        FrameModel { name: self.name@, start: self.start as int }
    }
}

/// LIFO sequence of active frames; its order mirrors the dynamic nesting of
/// the currently active regions, bottom first.
pub struct CallStack {
    frames: Vec<Frame>,
}

impl View for CallStack {
    type V = Seq<FrameModel>;

    closed spec fn view(&self) -> Seq<FrameModel> {
        self.frames@.map_values(|f: Frame| f@)
    }
}

impl CallStack {
    /// Frame starts never decrease from the bottom of the stack to the top:
    /// a frame pushed later started no earlier, and adjustments advance all
    /// remaining frames by the same amount.
    pub open spec fn wf(&self) -> bool {
        forall|i: int, j: int|
            0 <= i < j < self@.len() ==> self@[i].start <= self@[j].start
    }

    pub fn new() -> (s: CallStack)
        ensures
            s@ == Seq::<FrameModel>::empty(),
            s.wf(),
    {
        let s = CallStack { frames: Vec::new() };
        assert(s@ =~= Seq::<FrameModel>::empty());
        s
    }

    pub fn len(&self) -> (n: usize)
        ensures
            n == self@.len(),
    {
        self.frames.len()
    }

    /// Begin a region: append a frame that starts at the current counter
    /// reading `now`.
    pub fn push(&mut self, name: String, now: u64)
        requires
            old(self).wf(),
            old(self)@.len() > 0 ==> now >= old(self)@.last().start,
        ensures
            final(self).wf(),
            final(self)@ == old(self)@.push(FrameModel { name: name@, start: now as int }),
    {
        let ghost pre = self@;
        self.frames.push(Frame { name, start: now });
        assert(self@ =~= pre.push(FrameModel { name: name@, start: now as int }));
    }

    /// End the top region at reading `end`: remove its frame, charge it
    /// `end - start` exclusive cycles, and advance every remaining frame's
    /// start by that amount.  Returns the region's name and its exclusive
    /// cycle count.  Calling this on an empty stack (a missing or duplicated
    /// region exit) is excluded by contract; the unverified shell around the
    /// library must check the depth first and treat a violation as fatal.
    pub fn pop(&mut self, end: u64) -> (r: (String, u64))
        requires
            old(self).wf(),
            old(self)@.len() > 0,
            end >= old(self)@.last().start,
        ensures
            final(self).wf(),
            r.0@ == old(self)@.last().name,
            r.1 == end - old(self)@.last().start,
            final(self)@ == adjust(old(self)@.drop_last(), r.1 as int),
    {
        let ghost pre = self@;
        assert(pre.last() == self.frames@.last()@);
        let frame = self.frames.pop().unwrap();
        let cycles = end - frame.start;
        let ghost rest = pre.drop_last();
        assert(self@ =~= rest);
        let mut i: usize = 0;
        while i < self.frames.len()
            invariant
                self.frames@.len() == rest.len(),
                i <= rest.len(),
                cycles == end - frame.start as int,
                forall|j: int|
                    0 <= j < rest.len() ==> 0 <= #[trigger] rest[j].start <= frame.start as int,
                forall|j: int|
                    0 <= j < i ==> #[trigger] self.frames@[j]@ == (FrameModel {
                        name: rest[j].name,
                        start: rest[j].start + cycles,
                    }),
                forall|j: int| i <= j < rest.len() ==> #[trigger] self.frames@[j]@ == rest[j],
            decreases rest.len() - i,
        {
            let s = self.frames[i].start;
            assert(self.frames@[i as int]@ == rest[i as int]);
            assert(s as int == rest[i as int].start);
            assert(s as int + cycles as int <= end as int);
            self.frames[i].start = s + cycles;
            i += 1;
        }
        assert(self@ =~= adjust(rest, cycles as int));
        (frame.name, cycles)
    }
}

} // verus!
