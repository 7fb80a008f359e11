//! Mathematical model of one profiling session.
//!
//! The executable types in `stack`, `aggregate` and `profiler` all map, via
//! their views, into the ghost structures defined here, and every operation
//! is specified as one of the transition functions below.  The laws in
//! `laws` are then proved once, over this model.

use vstd::prelude::*;

verus! {

/// One active region on the call stack: its name and its (adjusted) start
/// reading.  `start` is advanced by the duration of every completed
/// descendant, so that `end - start` at pop time is the frame's exclusive
/// cycle count.
pub ghost struct FrameModel {
    pub name: Seq<char>,
    pub start: int,
}

/// Accumulated cost of one region name: how many invocations completed and
/// how many exclusive cycles they spent in total.
pub ghost struct EntryModel {
    pub name: Seq<char>,
    pub count: int,
    pub cycles: int,
}

/// The whole session: the stack of active frames (bottom first), the
/// aggregated entries in order of first completion, and the latest cycle
/// reading the session has seen.
pub ghost struct ProfilerModel {
    pub stack: Seq<FrameModel>,
    pub entries: Seq<EntryModel>,
    pub last: int,
}

/// Every frame's start advanced by `c` cycles; applied to the remaining
/// frames when a completed child's exclusive time must no longer count as
/// its ancestors' own.
pub open spec fn adjust(stack: Seq<FrameModel>, c: int) -> Seq<FrameModel> {
    stack.map(|i: int, f: FrameModel| FrameModel { name: f.name, start: f.start + c })
}

/// Index of the first entry named `name`, or -1 when there is none.
pub open spec fn find_entry(entries: Seq<EntryModel>, name: Seq<char>) -> int
    decreases entries.len(),
{
    if entries.len() == 0 {
        -1
    } else if entries[0].name == name {
        0
    } else {
        let rest = find_entry(entries.drop_first(), name);
        if rest < 0 {
            -1
        } else {
            rest + 1
        }
    }
}

/// One merge into the aggregate: a new entry with count 1 on first
/// completion of `name`, otherwise count + 1 and cycles added into the
/// existing entry.  Entries are never removed or reordered.
pub open spec fn merge_entries(entries: Seq<EntryModel>, name: Seq<char>, cycles: int) -> Seq<
    EntryModel,
> {
    let i = find_entry(entries, name);
    if i < 0 {
        entries.push(EntryModel { name, count: 1, cycles })
    } else {
        entries.update(
            i,
            EntryModel { name, count: entries[i].count + 1, cycles: entries[i].cycles + cycles },
        )
    }
}

/// Entering a region pushes a frame starting at the current reading.
pub open spec fn step_enter(m: ProfilerModel, name: Seq<char>, now: int) -> ProfilerModel {
    ProfilerModel {
        stack: m.stack.push(FrameModel { name, start: now }),
        entries: m.entries,
        last: now,
    }
}

/// Leaving a region pops the top frame, charges it `now - start` exclusive
/// cycles, advances every remaining frame's start by that amount, and merges
/// the result into the aggregate.  An exit on an empty stack is not part of
/// the model; the executable interface excludes it.
pub open spec fn step_exit(m: ProfilerModel, now: int) -> ProfilerModel {
    if m.stack.len() == 0 {
        m
    } else {
        let top = m.stack.last();
        let c = now - top.start;
        ProfilerModel {
            stack: adjust(m.stack.drop_last(), c),
            entries: merge_entries(m.entries, top.name, c),
            last: now,
        }
    }
}

/// The session before any region has been entered.
pub open spec fn init_model() -> ProfilerModel {
    ProfilerModel { stack: Seq::empty(), entries: Seq::empty(), last: 0 }
}

/// Total exclusive cycles over all aggregated entries.
pub open spec fn sum_cycles(entries: Seq<EntryModel>) -> int
    decreases entries.len(),
{
    if entries.len() == 0 {
        0
    } else {
        sum_cycles(entries.drop_last()) + entries.last().cycles
    }
}

/// Exclusive cycles recorded so far for `name`, 0 when it has no entry.
pub open spec fn entry_cycles(entries: Seq<EntryModel>, name: Seq<char>) -> int {
    let i = find_entry(entries, name);
    if i < 0 {
        0
    } else {
        entries[i].cycles
    }
}

/// Completed invocations recorded so far for `name`, 0 when it has no entry.
pub open spec fn entry_count(entries: Seq<EntryModel>, name: Seq<char>) -> int {
    let i = find_entry(entries, name);
    if i < 0 {
        0
    } else {
        entries[i].count
    }
}

/// No two aggregated entries share a name: the aggregate is a map keyed by
/// region name.
pub open spec fn unique_names(entries: Seq<EntryModel>) -> bool {
    forall|i: int, j: int|
        0 <= i < j < entries.len() ==> entries[i].name != entries[j].name
}

/// Every count and cycle total is a machine-representable non-negative
/// number.
pub open spec fn entries_bounded(entries: Seq<EntryModel>) -> bool {
    forall|i: int|
        #![trigger entries[i]]
        0 <= i < entries.len() ==> entries[i].count >= 0 && entries[i].cycles >= 0
}

/// Well-formedness of a session.  Frame starts grow from the bottom of the
/// stack to the top and never pass the latest reading, and the aggregated
/// total never passes the bottom frame's start (when the stack is empty, the
/// latest reading).  The last point is what makes the cycle totals fit in
/// the counter's own width: everything ever charged happened between reading
/// 0 and the current one.
pub open spec fn inv(m: ProfilerModel) -> bool {
    &&& 0 <= m.last <= u64::MAX
    &&& forall|i: int| 0 <= i < m.stack.len() ==> 0 <= #[trigger] m.stack[i].start
    &&& forall|i: int, j: int|
        0 <= i < j < m.stack.len() ==> m.stack[i].start <= m.stack[j].start
    &&& m.stack.len() > 0 ==> m.stack.last().start <= m.last
    &&& sum_cycles(m.entries) <= (if m.stack.len() == 0 {
        m.last
    } else {
        m.stack[0].start
    })
    &&& entries_bounded(m.entries)
    &&& forall|i: int|
        #![trigger m.entries[i]]
        0 <= i < m.entries.len() ==> m.entries[i].count <= usize::MAX
    &&& unique_names(m.entries)
}

/// `find_entry` returns -1 exactly when no entry is named `name`, and
/// otherwise the index of the first entry that is.
pub proof fn lemma_find_entry_props(entries: Seq<EntryModel>, name: Seq<char>)
    ensures
        -1 <= find_entry(entries, name) < entries.len(),
        find_entry(entries, name) >= 0 ==> entries[find_entry(entries, name)].name == name,
        find_entry(entries, name) >= 0 ==> (forall|j: int|
            #![trigger entries[j]]
            0 <= j < find_entry(entries, name) ==> entries[j].name != name),
        find_entry(entries, name) == -1 ==> (forall|j: int|
            #![trigger entries[j]]
            0 <= j < entries.len() ==> entries[j].name != name),
    decreases entries.len(),
{
    if entries.len() == 0 {
    } else if entries[0].name == name {
    } else {
        let rest = entries.drop_first();
        lemma_find_entry_props(rest, name);
        let r = find_entry(rest, name);
        assert(forall|j: int| #![trigger rest[j]] 0 <= j < rest.len() ==> rest[j] == entries[j + 1]);
        if r >= 0 {
            assert(entries[r + 1] == rest[r]);
            assert forall|j: int| #![trigger entries[j]] 0 <= j < r + 1 implies entries[j].name
                != name by {
                if j > 0 {
                    assert(rest[j - 1] == entries[j]);
                }
            }
        } else {
            assert forall|j: int| #![trigger entries[j]] 0 <= j < entries.len() implies entries[j].name
                != name by {
                if j > 0 {
                    assert(rest[j - 1] == entries[j]);
                }
            }
        }
    }
}

/// Appending an entry extends the total by that entry's cycles.
pub proof fn lemma_sum_push(entries: Seq<EntryModel>, e: EntryModel)
    ensures
        sum_cycles(entries.push(e)) == sum_cycles(entries) + e.cycles,
{
    assert(entries.push(e).drop_last() =~= entries);
    assert(entries.push(e).last() == e);
}

/// Replacing one entry changes the total by the difference in cycles.
pub proof fn lemma_sum_update(entries: Seq<EntryModel>, i: int, e: EntryModel)
    requires
        0 <= i < entries.len(),
    ensures
        sum_cycles(entries.update(i, e)) == sum_cycles(entries) - entries[i].cycles + e.cycles,
    decreases entries.len(),
{
    let u = entries.update(i, e);
    if i == entries.len() - 1 {
        assert(u.drop_last() =~= entries.drop_last());
        assert(u.last() == e);
    } else {
        assert(u.drop_last() =~= entries.drop_last().update(i, e));
        assert(u.last() == entries.last());
        lemma_sum_update(entries.drop_last(), i, e);
    }
}

/// With no negative cycle counts the total is non-negative.
pub proof fn lemma_sum_nonneg(entries: Seq<EntryModel>)
    requires
        entries_bounded(entries),
    ensures
        sum_cycles(entries) >= 0,
    decreases entries.len(),
{
    if entries.len() > 0 {
        let rest = entries.drop_last();
        assert(forall|j: int| #![trigger rest[j]] 0 <= j < rest.len() ==> rest[j] == entries[j]);
        lemma_sum_nonneg(rest);
        assert(entries.last() == entries[entries.len() - 1]);
    }
}

/// With no negative cycle counts no single entry exceeds the total.
pub proof fn lemma_elem_le_sum(entries: Seq<EntryModel>, i: int)
    requires
        entries_bounded(entries),
        0 <= i < entries.len(),
    ensures
        entries[i].cycles <= sum_cycles(entries),
    decreases entries.len(),
{
    let rest = entries.drop_last();
    assert(forall|j: int| #![trigger rest[j]] 0 <= j < rest.len() ==> rest[j] == entries[j]);
    assert(entries.last() == entries[entries.len() - 1]);
    if i == entries.len() - 1 {
        lemma_sum_nonneg(rest);
    } else {
        lemma_elem_le_sum(rest, i);
    }
}

/// One merge grows the aggregated total by exactly the merged cycles.
pub proof fn lemma_merge_sum(entries: Seq<EntryModel>, name: Seq<char>, cycles: int)
    ensures
        sum_cycles(merge_entries(entries, name, cycles)) == sum_cycles(entries) + cycles,
{
    lemma_find_entry_props(entries, name);
    let i = find_entry(entries, name);
    if i < 0 {
        lemma_sum_push(entries, EntryModel { name, count: 1, cycles });
    } else {
        lemma_sum_update(
            entries,
            i,
            EntryModel { name, count: entries[i].count + 1, cycles: entries[i].cycles + cycles },
        );
    }
}

/// Merging keeps the aggregate keyed: names stay pairwise distinct.
pub proof fn lemma_merge_unique(entries: Seq<EntryModel>, name: Seq<char>, cycles: int)
    requires
        unique_names(entries),
    ensures
        unique_names(merge_entries(entries, name, cycles)),
{
    lemma_find_entry_props(entries, name);
    let i = find_entry(entries, name);
    let m = merge_entries(entries, name, cycles);
    if i < 0 {
        assert(forall|j: int| 0 <= j < entries.len() ==> m[j] == entries[j]);
        assert(m[m.len() - 1].name == name);
    } else {
        assert(forall|j: int| 0 <= j < m.len() && j != i ==> m[j] == entries[j]);
        assert(m[i].name == entries[i].name);
    }
}

/// Merging a non-negative cycle count keeps every count and cycle total a
/// machine-representable non-negative number, provided the merged name's
/// count has room for one more.
pub proof fn lemma_merge_bounded(entries: Seq<EntryModel>, name: Seq<char>, cycles: int)
    requires
        entries_bounded(entries),
        forall|i: int| 0 <= i < entries.len() ==> #[trigger] entries[i].count <= usize::MAX,
        entry_count(entries, name) < usize::MAX,
        cycles >= 0,
    ensures
        entries_bounded(merge_entries(entries, name, cycles)),
        forall|i: int|
            0 <= i < merge_entries(entries, name, cycles).len()
                ==> #[trigger] merge_entries(entries, name, cycles)[i].count <= usize::MAX,
{
    lemma_find_entry_props(entries, name);
    let i = find_entry(entries, name);
    let m = merge_entries(entries, name, cycles);
    if i < 0 {
        assert(forall|j: int| 0 <= j < entries.len() ==> m[j] == entries[j]);
        assert(m[m.len() - 1].count == 1);
    } else {
        assert(forall|j: int| 0 <= j < m.len() && j != i ==> m[j] == entries[j]);
        assert(m[i].count == entries[i].count + 1);
    }
}

} // verus!
