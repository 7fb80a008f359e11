//! Session-level laws, proved once over the model in `model`.
//!
//! A completed, well-formed sequence of nested region enter/exit calls (no
//! mismatched release) is exactly a forest of `Region` trees: each tree is
//! one invocation with its nested invocations inside it.  `run_forest`
//! replays such a trace through the model's transition functions, and the
//! lemmas below say what any session run must satisfy: the stack returns to
//! its starting depth, each invocation is charged its inclusive duration
//! minus its children's, cycles are conserved — never lost and never
//! double-counted across recursive frames — and everything charged fits
//! inside the measurement window.

use crate::model::{
    adjust, entry_count, entry_cycles, find_entry, lemma_find_entry_props, lemma_merge_sum,
    merge_entries, step_enter, step_exit, sum_cycles, EntryModel, FrameModel, ProfilerModel,
};
use vstd::prelude::*;

verus! {

/// One completed region invocation: entered at reading `enter`, its nested
/// invocations in order, left at reading `exit`.
pub ghost struct Region {
    pub name: Seq<char>,
    pub enter: int,
    pub kids: Seq<Region>,
    pub exit: int,
}

/// One merge the session performs: a completed invocation's name and its
/// exclusive cycle count.
pub ghost struct Merge {
    pub name: Seq<char>,
    pub cycles: int,
}

/// The reading the clock has reached once the trace `f` has run, `lo`
/// being the reading before it started.
pub open spec fn forest_end(f: Seq<Region>, lo: int) -> int
    decreases f,
{
    if f.len() == 0 {
        lo
    } else {
        forest_end(f.subrange(1, f.len() as int), f[0].exit)
    }
}

/// The invocation's readings are consistent: it starts no earlier than
/// `lo`, its children run in order inside it, and it ends no earlier than
/// its last child.
pub open spec fn region_wf(r: Region, lo: int) -> bool
    decreases r,
{
    &&& lo <= r.enter
    &&& forest_wf(r.kids, r.enter)
    &&& forest_end(r.kids, r.enter) <= r.exit
}

/// The invocations happen one after the other, each well-formed.
pub open spec fn forest_wf(f: Seq<Region>, lo: int) -> bool
    decreases f,
{
    f.len() == 0 || (region_wf(f[0], lo) && forest_wf(f.subrange(1, f.len() as int), f[0].exit))
}

/// Inclusive duration of one invocation, children included.
pub open spec fn duration(r: Region) -> int {
    r.exit - r.enter
}

/// Sum of the inclusive durations of the top-level invocations of `f`.
pub open spec fn forest_duration(f: Seq<Region>) -> int
    decreases f,
{
    if f.len() == 0 {
        0
    } else {
        duration(f[0]) + forest_duration(f.subrange(1, f.len() as int))
    }
}

/// The exclusive cycles the profiler charges one invocation: its inclusive
/// duration minus its direct children's inclusive durations.
pub open spec fn exclusive(r: Region) -> int {
    duration(r) - forest_duration(r.kids)
}

/// Every merge performed while `r` runs, in order: children first, the
/// invocation itself on its exit.
pub open spec fn merges_of_region(r: Region) -> Seq<Merge>
    decreases r,
{
    merges_of_forest(r.kids).push(Merge { name: r.name, cycles: exclusive(r) })
}

/// Every merge performed while the forest `f` runs, in order.
pub open spec fn merges_of_forest(f: Seq<Region>) -> Seq<Merge>
    decreases f,
{
    if f.len() == 0 {
        Seq::empty()
    } else {
        merges_of_region(f[0]) + merges_of_forest(f.subrange(1, f.len() as int))
    }
}

/// Merges applied to an aggregate, in order.
pub open spec fn apply_merges(entries: Seq<EntryModel>, ms: Seq<Merge>) -> Seq<EntryModel>
    decreases ms,
{
    if ms.len() == 0 {
        entries
    } else {
        apply_merges(
            merge_entries(entries, ms[0].name, ms[0].cycles),
            ms.subrange(1, ms.len() as int),
        )
    }
}

/// Total cycles over a sequence of merges.
pub open spec fn sum_merges(ms: Seq<Merge>) -> int
    decreases ms,
{
    if ms.len() == 0 {
        0
    } else {
        ms[0].cycles + sum_merges(ms.subrange(1, ms.len() as int))
    }
}

/// One invocation replayed through the model: enter, run the children,
/// exit.
pub open spec fn run_region(m: ProfilerModel, r: Region) -> ProfilerModel
    decreases r,
{
    step_exit(run_forest(step_enter(m, r.name, r.enter), r.kids), r.exit)
}

/// A whole trace replayed through the model, invocation by invocation.
pub open spec fn run_forest(m: ProfilerModel, f: Seq<Region>) -> ProfilerModel
    decreases f,
{
    if f.len() == 0 {
        m
    } else {
        run_forest(run_region(m, f[0]), f.subrange(1, f.len() as int))
    }
}

proof fn lemma_apply_merges_concat(entries: Seq<EntryModel>, ms1: Seq<Merge>, ms2: Seq<Merge>)
    ensures
        apply_merges(entries, ms1 + ms2) == apply_merges(apply_merges(entries, ms1), ms2),
    decreases ms1,
{
    if ms1.len() == 0 {
        assert(ms1 + ms2 =~= ms2);
    } else {
        let rest = ms1.subrange(1, ms1.len() as int);
        assert((ms1 + ms2)[0] == ms1[0]);
        assert((ms1 + ms2).subrange(1, (ms1 + ms2).len() as int) =~= rest + ms2);
        lemma_apply_merges_concat(merge_entries(entries, ms1[0].name, ms1[0].cycles), rest, ms2);
    }
}

proof fn lemma_apply_merges_snoc(entries: Seq<EntryModel>, ms: Seq<Merge>, mg: Merge)
    ensures
        apply_merges(entries, ms.push(mg)) == merge_entries(
            apply_merges(entries, ms),
            mg.name,
            mg.cycles,
        ),
{
    let single = seq![mg];
    assert(ms.push(mg) =~= ms + single);
    lemma_apply_merges_concat(entries, ms, single);
    let base = apply_merges(entries, ms);
    assert(apply_merges(base, single) == merge_entries(base, mg.name, mg.cycles)) by {
        reveal_with_fuel(apply_merges, 2);
        assert(single[0] == mg);
        assert(single.subrange(1, 1) =~= Seq::<Merge>::empty());
    }
}

proof fn lemma_sum_merges_concat(ms1: Seq<Merge>, ms2: Seq<Merge>)
    ensures
        sum_merges(ms1 + ms2) == sum_merges(ms1) + sum_merges(ms2),
    decreases ms1,
{
    if ms1.len() == 0 {
        assert(ms1 + ms2 =~= ms2);
    } else {
        let rest = ms1.subrange(1, ms1.len() as int);
        assert((ms1 + ms2)[0] == ms1[0]);
        assert((ms1 + ms2).subrange(1, (ms1 + ms2).len() as int) =~= rest + ms2);
        lemma_sum_merges_concat(rest, ms2);
    }
}

proof fn lemma_sum_merges_snoc(ms: Seq<Merge>, mg: Merge)
    ensures
        sum_merges(ms.push(mg)) == sum_merges(ms) + mg.cycles,
{
    let single = seq![mg];
    assert(ms.push(mg) =~= ms + single);
    lemma_sum_merges_concat(ms, single);
    assert(sum_merges(single) == mg.cycles) by {
        reveal_with_fuel(sum_merges, 2);
        assert(single[0] == mg);
        assert(single.subrange(1, 1) =~= Seq::<Merge>::empty());
    }
}

proof fn lemma_adjust_compose(stack: Seq<FrameModel>, a: int, b: int)
    ensures
        adjust(adjust(stack, a), b) == adjust(stack, a + b),
{
    assert(adjust(adjust(stack, a), b) =~= adjust(stack, a + b));
}

proof fn lemma_adjust_zero(stack: Seq<FrameModel>)
    ensures
        adjust(stack, 0) == stack,
{
    assert(adjust(stack, 0) =~= stack);
}

/// What one replayed invocation does to any session state: every already
/// active frame's start advances by the invocation's inclusive duration,
/// the invocation's merges are applied in order, and the clock stands at
/// its exit reading.
pub proof fn lemma_run_region(m: ProfilerModel, r: Region)
    ensures
        run_region(m, r).stack == adjust(m.stack, duration(r)),
        run_region(m, r).entries == apply_merges(m.entries, merges_of_region(r)),
        run_region(m, r).last == r.exit,
    decreases r,
{
    let m1 = step_enter(m, r.name, r.enter);
    let m2 = run_forest(m1, r.kids);
    lemma_run_forest(m1, r.kids);
    let fr = FrameModel { name: r.name, start: r.enter };
    let d = forest_duration(r.kids);
    assert(m2.stack == adjust(m.stack.push(fr), d));
    assert(m2.stack.len() == m.stack.len() + 1);
    assert(m2.stack.last() == (FrameModel { name: r.name, start: r.enter + d }));
    assert(m2.stack.drop_last() =~= adjust(m.stack, d));
    let c = r.exit - (r.enter + d);
    assert(c == exclusive(r));
    lemma_adjust_compose(m.stack, d, c);
    assert(run_region(m, r).stack == adjust(m.stack, duration(r)));
    lemma_apply_merges_snoc(m.entries, merges_of_forest(r.kids), Merge {
        name: r.name,
        cycles: exclusive(r),
    });
}

/// What a whole replayed trace does to any session state.
pub proof fn lemma_run_forest(m: ProfilerModel, f: Seq<Region>)
    ensures
        run_forest(m, f).stack == adjust(m.stack, forest_duration(f)),
        run_forest(m, f).entries == apply_merges(m.entries, merges_of_forest(f)),
        run_forest(m, f).last == forest_end(f, m.last),
    decreases f,
{
    if f.len() == 0 {
        lemma_adjust_zero(m.stack);
    } else {
        let rest = f.subrange(1, f.len() as int);
        let m1 = run_region(m, f[0]);
        lemma_run_region(m, f[0]);
        lemma_run_forest(m1, rest);
        lemma_adjust_compose(m.stack, duration(f[0]), forest_duration(rest));
        lemma_apply_merges_concat(m.entries, merges_of_region(f[0]), merges_of_forest(rest));
    }
}

/// Conservation over one subtree: everything charged while an invocation
/// runs — its own exclusive cycles and every descendant's — sums to exactly
/// its inclusive duration.  No cycle is lost to nesting and none is
/// double-counted across overlapping frames.
pub proof fn lemma_region_conservation(r: Region)
    ensures
        sum_merges(merges_of_region(r)) == duration(r),
    decreases r,
{
    lemma_forest_conservation(r.kids);
    lemma_sum_merges_snoc(
        merges_of_forest(r.kids),
        Merge { name: r.name, cycles: exclusive(r) },
    );
}

/// Conservation over a whole trace: the charges sum to the top-level
/// invocations' inclusive durations.
pub proof fn lemma_forest_conservation(f: Seq<Region>)
    ensures
        sum_merges(merges_of_forest(f)) == forest_duration(f),
    decreases f,
{
    if f.len() > 0 {
        let rest = f.subrange(1, f.len() as int);
        lemma_region_conservation(f[0]);
        lemma_forest_conservation(rest);
        lemma_sum_merges_concat(merges_of_region(f[0]), merges_of_forest(rest));
    }
}

/// After any balanced trace — every region entered is exited, in nesting
/// order — the stack stands exactly as deep as before the trace began.  A
/// session that begins with an empty stack ends with one when the
/// outermost region exits.
pub proof fn lemma_balanced_trace_stack(m: ProfilerModel, f: Seq<Region>)
    ensures
        run_forest(m, f).stack.len() == m.stack.len(),
{
    lemma_run_forest(m, f);
}

/// Self-time: an invocation whose inclusive duration is `duration(r)` is
/// charged that duration minus everything charged within its children, and
/// the children's charges sum to their own inclusive durations.
pub proof fn lemma_self_time(r: Region)
    ensures
        exclusive(r) == duration(r) - sum_merges(merges_of_forest(r.kids)),
        sum_merges(merges_of_region(r)) == duration(r),
{
    lemma_forest_conservation(r.kids);
    lemma_region_conservation(r);
}

proof fn lemma_apply_merges_sum(entries: Seq<EntryModel>, ms: Seq<Merge>)
    ensures
        sum_cycles(apply_merges(entries, ms)) == sum_cycles(entries) + sum_merges(ms),
    decreases ms,
{
    if ms.len() > 0 {
        let rest = ms.subrange(1, ms.len() as int);
        lemma_merge_sum(entries, ms[0].name, ms[0].cycles);
        lemma_apply_merges_sum(merge_entries(entries, ms[0].name, ms[0].cycles), rest);
    }
}

/// Across a whole session the aggregate accumulates exactly the top-level
/// invocations' inclusive durations.
pub proof fn lemma_session_total(m: ProfilerModel, f: Seq<Region>)
    ensures
        sum_cycles(run_forest(m, f).entries) == sum_cycles(m.entries) + forest_duration(f),
{
    lemma_run_forest(m, f);
    lemma_apply_merges_sum(m.entries, merges_of_forest(f));
    lemma_forest_conservation(f);
}

/// A well-formed invocation takes non-negative time and ends no earlier
/// than it starts.
pub proof fn lemma_region_window(r: Region, lo: int)
    requires
        region_wf(r, lo),
    ensures
        r.enter >= lo,
        r.exit >= r.enter,
        duration(r) >= 0,
    decreases r,
{
    lemma_forest_window(r.kids, r.enter);
}

/// A well-formed trace only moves the clock forward, and its top-level
/// durations fit inside the span it took.
pub proof fn lemma_forest_window(f: Seq<Region>, lo: int)
    requires
        forest_wf(f, lo),
    ensures
        forest_end(f, lo) >= lo,
        0 <= forest_duration(f) <= forest_end(f, lo) - lo,
    decreases f,
{
    if f.len() > 0 {
        let rest = f.subrange(1, f.len() as int);
        lemma_region_window(f[0], lo);
        lemma_forest_window(rest, f[0].exit);
    }
}

/// Percentage closure, in cycles: a fresh session that replays a
/// well-formed trace lying inside the window from `w0` to `w1` aggregates
/// at least nothing and at most the window.  The window therefore splits
/// into the reported total plus a non-negative unattributed remainder, so
/// the reported shares of the window and the unattributed share close to
/// the whole.
pub proof fn lemma_percentage_closure(m: ProfilerModel, f: Seq<Region>, w0: int, w1: int)
    requires
        m.entries == Seq::<EntryModel>::empty(),
        forest_wf(f, w0),
        forest_end(f, w0) <= w1,
    ensures
        0 <= sum_cycles(run_forest(m, f).entries) <= w1 - w0,
    decreases f,
{
    lemma_session_total(m, f);
    lemma_forest_window(f, w0);
}

/// When a single root region brackets the whole run, everything is
/// attributed: a fresh session's aggregated total equals the root's
/// inclusive duration exactly, and nothing is left over.
pub proof fn lemma_bracketed_closure(m: ProfilerModel, r: Region)
    requires
        m.entries == Seq::<EntryModel>::empty(),
    ensures
        sum_cycles(run_region(m, r).entries) == duration(r),
{
    lemma_run_region(m, r);
    lemma_apply_merges_sum(m.entries, merges_of_region(r));
    lemma_region_conservation(r);
}

/// Direct children's exclusive charges, summed.
pub open spec fn kids_exclusive(f: Seq<Region>) -> int
    decreases f,
{
    if f.len() == 0 {
        0
    } else {
        exclusive(f[0]) + kids_exclusive(f.subrange(1, f.len() as int))
    }
}

proof fn lemma_kids_exclusive_flat(f: Seq<Region>)
    requires
        forall|i: int| #![trigger f[i]] 0 <= i < f.len() ==> f[i].kids.len() == 0,
    ensures
        kids_exclusive(f) == forest_duration(f),
    decreases f,
{
    if f.len() > 0 {
        let rest = f.subrange(1, f.len() as int);
        assert(forall|j: int| #![trigger rest[j]] 0 <= j < rest.len() ==> rest[j] == f[j + 1]);
        assert(forest_duration(f[0].kids) == 0);
        lemma_kids_exclusive_flat(rest);
    }
}

/// Self-time spelled over the direct children: when no child nests regions
/// of its own, an invocation is charged its inclusive duration minus its
/// children's exclusive cycle counts.  With deeper nesting the
/// grandchildren's charges join the subtraction; `lemma_self_time` gives
/// that general form.
pub proof fn lemma_self_time_direct(r: Region)
    requires
        forall|i: int| #![trigger r.kids[i]] 0 <= i < r.kids.len() ==> r.kids[i].kids.len() == 0,
    ensures
        exclusive(r) == duration(r) - kids_exclusive(r.kids),
{
    lemma_kids_exclusive_flat(r.kids);
}

/// While a frame lives on the stack its recorded start only grows, and it
/// never passes the reading at which a region exits: popping a completed
/// child advances every remaining frame, and by no more than the clock has
/// moved.
pub proof fn lemma_frame_starts_monotonic(m: ProfilerModel, now: int)
    requires
        crate::model::inv(m),
        m.stack.len() > 0,
        m.last <= now,
    ensures
        forall|i: int|
            0 <= i < m.stack.len() - 1 ==> m.stack[i].start <= #[trigger] step_exit(
                m,
                now,
            ).stack[i].start <= now,
{
    let top = m.stack.last();
    assert(top.start <= m.last);
    let c = now - top.start;
    assert forall|i: int| 0 <= i < m.stack.len() - 1 implies m.stack[i].start <= #[trigger] step_exit(
        m,
        now,
    ).stack[i].start <= now by {
        assert(step_exit(m, now).stack[i] == (FrameModel {
            name: m.stack.drop_last()[i].name,
            start: m.stack.drop_last()[i].start + c,
        }));
        assert(m.stack.drop_last()[i] == m.stack[i]);
        assert(m.stack[i].start <= m.stack[m.stack.len() - 1].start);
    }
}

/// Cycles a sequence of merges attributes to one name.
pub open spec fn name_cycles(ms: Seq<Merge>, name: Seq<char>) -> int
    decreases ms,
{
    if ms.len() == 0 {
        0
    } else {
        (if ms[0].name == name {
            ms[0].cycles
        } else {
            0
        }) + name_cycles(ms.subrange(1, ms.len() as int), name)
    }
}

/// Completed invocations a sequence of merges attributes to one name.
pub open spec fn name_count(ms: Seq<Merge>, name: Seq<char>) -> int
    decreases ms,
{
    if ms.len() == 0 {
        0
    } else {
        (if ms[0].name == name {
            1int
        } else {
            0int
        }) + name_count(ms.subrange(1, ms.len() as int), name)
    }
}

proof fn lemma_name_totals_concat(ms1: Seq<Merge>, ms2: Seq<Merge>, name: Seq<char>)
    ensures
        name_cycles(ms1 + ms2, name) == name_cycles(ms1, name) + name_cycles(ms2, name),
        name_count(ms1 + ms2, name) == name_count(ms1, name) + name_count(ms2, name),
    decreases ms1,
{
    if ms1.len() == 0 {
        assert(ms1 + ms2 =~= ms2);
    } else {
        let rest = ms1.subrange(1, ms1.len() as int);
        assert((ms1 + ms2)[0] == ms1[0]);
        assert((ms1 + ms2).subrange(1, (ms1 + ms2).len() as int) =~= rest + ms2);
        lemma_name_totals_concat(rest, ms2, name);
    }
}

proof fn lemma_name_totals_snoc(ms: Seq<Merge>, mg: Merge, name: Seq<char>)
    ensures
        name_cycles(ms.push(mg), name) == name_cycles(ms, name) + (if mg.name == name {
            mg.cycles
        } else {
            0
        }),
        name_count(ms.push(mg), name) == name_count(ms, name) + (if mg.name == name {
            1int
        } else {
            0int
        }),
{
    let single = seq![mg];
    assert(ms.push(mg) =~= ms + single);
    lemma_name_totals_concat(ms, single, name);
    assert(name_cycles(single, name) == if mg.name == name {
        mg.cycles
    } else {
        0
    }) by {
        reveal_with_fuel(name_cycles, 2);
        assert(single[0] == mg);
        assert(single.subrange(1, 1) =~= Seq::<Merge>::empty());
    }
    assert(name_count(single, name) == if mg.name == name {
        1int
    } else {
        0int
    }) by {
        reveal_with_fuel(name_count, 2);
        assert(single[0] == mg);
        assert(single.subrange(1, 1) =~= Seq::<Merge>::empty());
    }
}

proof fn lemma_find_entry_same_names(a: Seq<EntryModel>, b: Seq<EntryModel>, name: Seq<char>)
    requires
        a.len() == b.len(),
        forall|j: int| #![trigger a[j]] 0 <= j < a.len() ==> a[j].name == b[j].name,
    ensures
        find_entry(a, name) == find_entry(b, name),
    decreases a.len(),
{
    if a.len() > 0 && a[0].name != name {
        let ra = a.drop_first();
        let rb = b.drop_first();
        assert(forall|j: int| #![trigger ra[j]] 0 <= j < ra.len() ==> ra[j] == a[j + 1]);
        assert(forall|j: int| #![trigger rb[j]] 0 <= j < rb.len() ==> rb[j] == b[j + 1]);
        lemma_find_entry_same_names(ra, rb, name);
    }
}

/// One merge's effect on one name's aggregated totals: the merged name
/// gains the merged cycles and one invocation, every other name keeps its
/// totals.
proof fn lemma_merge_lookup(es: Seq<EntryModel>, n: Seq<char>, c: int, q: Seq<char>)
    ensures
        entry_cycles(merge_entries(es, n, c), q) == entry_cycles(es, q) + (if q == n {
            c
        } else {
            0
        }),
        entry_count(merge_entries(es, n, c), q) == entry_count(es, q) + (if q == n {
            1int
        } else {
            0int
        }),
{
    lemma_find_entry_props(es, n);
    lemma_find_entry_props(es, q);
    let m = merge_entries(es, n, c);
    lemma_find_entry_props(m, q);
    let i = find_entry(es, n);
    let j = find_entry(es, q);
    let k = find_entry(m, q);
    if i < 0 {
        assert(m == es.push(EntryModel { name: n, count: 1, cycles: c }));
        assert(forall|t: int| #![trigger m[t]] 0 <= t < es.len() ==> m[t] == es[t]);
        assert(m[es.len() as int].name == n);
        if q == n {
            assert(j == -1) by {
                if j >= 0 {
                    assert(es[j].name != n);
                }
            }
            assert(k == es.len()) by {
                if k == -1 {
                    assert(m[es.len() as int].name != q);
                } else if k < es.len() {
                    assert(es[k].name != q);
                    assert(m[k].name == q);
                }
            }
        } else {
            if j >= 0 {
                assert(k == j) by {
                    if k == -1 {
                        assert(m[j].name != q);
                    } else if k < j {
                        assert(es[k].name != q);
                        assert(m[k].name == q);
                    } else if k > j {
                        assert(m[j].name != q);
                    }
                }
            } else {
                assert(k == -1) by {
                    if 0 <= k < es.len() {
                        assert(es[k].name != q);
                        assert(m[k].name == q);
                    }
                }
            }
        }
    } else {
        assert(m == es.update(
            i,
            EntryModel { name: n, count: es[i].count + 1, cycles: es[i].cycles + c },
        ));
        assert(forall|t: int| #![trigger m[t]] 0 <= t < m.len() ==> m[t].name == es[t].name);
        lemma_find_entry_same_names(m, es, q);
        assert(k == j);
        if q == n {
            assert(j == i) by {
                if j == -1 {
                    assert(es[i].name != q);
                } else if j < i {
                    assert(es[j].name != n);
                } else if j > i {
                    assert(es[i].name != q);
                }
            }
        } else {
            assert(j != i) by {
                if j == i {
                    assert(es[i].name == q);
                }
            }
        }
    }
}

proof fn lemma_apply_merges_lookup(es: Seq<EntryModel>, ms: Seq<Merge>, q: Seq<char>)
    ensures
        entry_cycles(apply_merges(es, ms), q) == entry_cycles(es, q) + name_cycles(ms, q),
        entry_count(apply_merges(es, ms), q) == entry_count(es, q) + name_count(ms, q),
    decreases ms,
{
    if ms.len() > 0 {
        let rest = ms.subrange(1, ms.len() as int);
        lemma_merge_lookup(es, ms[0].name, ms[0].cycles, q);
        lemma_apply_merges_lookup(merge_entries(es, ms[0].name, ms[0].cycles), rest, q);
    }
}

/// Aggregation by name: after any trace, a name's aggregated cycle total
/// and invocation count grow by exactly the sums over that name's own
/// invocations in the trace, however deeply nested or recursive they are.
pub proof fn lemma_per_name_totals(m: ProfilerModel, f: Seq<Region>, q: Seq<char>)
    ensures
        entry_cycles(run_forest(m, f).entries, q) == entry_cycles(m.entries, q) + name_cycles(
            merges_of_forest(f),
            q,
        ),
        entry_count(run_forest(m, f).entries, q) == entry_count(m.entries, q) + name_count(
            merges_of_forest(f),
            q,
        ),
{
    lemma_run_forest(m, f);
    lemma_apply_merges_lookup(m.entries, merges_of_forest(f), q);
}

/// Every invocation in the tree bears this name: a purely self-recursive
/// region.
pub open spec fn region_all_named(r: Region, name: Seq<char>) -> bool
    decreases r,
{
    r.name == name && forest_all_named(r.kids, name)
}

/// Every invocation in the forest bears this name.
pub open spec fn forest_all_named(f: Seq<Region>, name: Seq<char>) -> bool
    decreases f,
{
    f.len() == 0 || (region_all_named(f[0], name) && forest_all_named(
        f.subrange(1, f.len() as int),
        name,
    ))
}

/// Number of invocations in the tree, the root included.
pub open spec fn region_size(r: Region) -> int
    decreases r,
{
    1 + forest_size(r.kids)
}

/// Number of invocations in the forest.
pub open spec fn forest_size(f: Seq<Region>) -> int
    decreases f,
{
    if f.len() == 0 {
        0
    } else {
        region_size(f[0]) + forest_size(f.subrange(1, f.len() as int))
    }
}

proof fn lemma_all_named_totals_region(r: Region, q: Seq<char>)
    requires
        region_all_named(r, q),
    ensures
        name_cycles(merges_of_region(r), q) == sum_merges(merges_of_region(r)),
        name_count(merges_of_region(r), q) == region_size(r),
    decreases r,
{
    lemma_all_named_totals_forest(r.kids, q);
    let mg = Merge { name: r.name, cycles: exclusive(r) };
    lemma_name_totals_snoc(merges_of_forest(r.kids), mg, q);
    lemma_sum_merges_snoc(merges_of_forest(r.kids), mg);
}

proof fn lemma_all_named_totals_forest(f: Seq<Region>, q: Seq<char>)
    requires
        forest_all_named(f, q),
    ensures
        name_cycles(merges_of_forest(f), q) == sum_merges(merges_of_forest(f)),
        name_count(merges_of_forest(f), q) == forest_size(f),
    decreases f,
{
    if f.len() > 0 {
        let rest = f.subrange(1, f.len() as int);
        lemma_all_named_totals_region(f[0], q);
        lemma_all_named_totals_forest(rest, q);
        lemma_name_totals_concat(merges_of_region(f[0]), merges_of_forest(rest), q);
        lemma_sum_merges_concat(merges_of_region(f[0]), merges_of_forest(rest));
    }
}

/// Recursion correctness: when one self-recursive region is replayed from a
/// fresh session, its aggregate entry counts every invocation once, and
/// its cycle total is exactly the root invocation's inclusive duration —
/// cycles of overlapping recursive frames are never double-counted.
pub proof fn lemma_recursive_region(m: ProfilerModel, r: Region, q: Seq<char>)
    requires
        m.entries == Seq::<EntryModel>::empty(),
        region_all_named(r, q),
    ensures
        entry_count(run_region(m, r).entries, q) == region_size(r),
        entry_cycles(run_region(m, r).entries, q) == duration(r),
{
    lemma_run_region(m, r);
    lemma_apply_merges_lookup(m.entries, merges_of_region(r), q);
    lemma_all_named_totals_region(r, q);
    lemma_region_conservation(r);
}

} // verus!
