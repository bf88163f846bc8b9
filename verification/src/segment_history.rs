//! The history of one segment: a mapping from run index to the time that
//! the segment took in that run.
//!
//! Indices of 1 and above belong to actual runs and are the indices of the
//! attempts in the attempt history. Indices of 0 and below are synthetic:
//! they were brought in from elsewhere and belong to no attempt.

use crate::time::{Time, TimeSpan, TimingMethod};
use std::collections::HashSet;
use vstd::prelude::*;

verus! {

broadcast use vstd::std_specs::hash::group_hash_axioms;

/// Whether `entries` are in strictly increasing order of index.
pub open spec fn strictly_ordered(entries: Seq<(i32, Time)>) -> bool {
    forall|i: int, j: int| 0 <= i < j < entries.len() ==> entries[i].0 < entries[j].0
}

/// Whether `entries` lists exactly the mapping `history`, lowest index first.
pub open spec fn lists(entries: Seq<(i32, Time)>, history: Map<int, Time>) -> bool {
    &&& strictly_ordered(entries)
    &&& forall|i: int|
        0 <= i < entries.len() ==> history.contains_pair(
            (#[trigger] entries[i]).0 as int,
            entries[i].1,
        )
    &&& forall|k: int| #[trigger]
        history.dom().contains(k) ==> exists|i: int|
            0 <= i < entries.len() && (#[trigger] entries[i]).0 == k
}

/// The entry of `history` at `index`, if there is one.
pub open spec fn lookup(history: Map<int, Time>, index: int) -> Option<Time> {
    if history.dom().contains(index) {
        Some(history[index])
    } else {
        None
    }
}

/// Whether `m` is the lowest index of `history`, or 1 where every index is
/// above 1 or there is none.
pub open spec fn is_min_index(history: Map<int, Time>, m: int) -> bool {
    &&& m <= 1
    &&& m == 1 || history.dom().contains(m)
    &&& forall|k: int| history.dom().contains(k) ==> m <= k
}

/// The lowest index of `history`, capped at 1. One below it is always free
/// and synthetic.
pub open spec fn min_index(history: Map<int, Time>) -> int {
    choose|m: int| is_min_index(history, m)
}

/// The entries of `history` that belong to actual runs.
pub open spec fn actual_runs(history: Map<int, Time>) -> Map<int, Time> {
    Map::new(|k: int| history.dom().contains(k) && k >= 1, |k: int| history[k])
}

/// The entries of `history` that have no time under `method`.
pub open spec fn skipped_only(history: Map<int, Time>, method: TimingMethod) -> Map<int, Time> {
    Map::new(|k: int| history.dom().contains(k) && history[k].at(method) is None, |k: int| history[k])
}

/// `time`, with its time under `method` raised to `floor` where it was below.
pub open spec fn raise(time: Time, method: TimingMethod, floor: TimeSpan) -> Time {
    match time.at(method) {
        Some(span) if span.millis < floor.millis => time.with(method, Some(floor)),
        _ => time,
    }
}

/// `history` with every time under `method` raised to at least `floor`.
pub open spec fn raised(history: Map<int, Time>, method: TimingMethod, floor: TimeSpan) -> Map<
    int,
    Time,
> {
    Map::new(|k: int| history.dom().contains(k), |k: int| raise(history[k], method, floor))
}

/// Whether a walk through `history` in order of index, after a look at all
/// actual runs, has met the duration `span` under `method` before it comes to
/// `index`.
pub open spec fn seen_before(
    history: Map<int, Time>,
    index: int,
    method: TimingMethod,
    span: TimeSpan,
) -> bool {
    exists|j: int|
        #![trigger history.dom().contains(j)]
        history.dom().contains(j) && (j >= 1 || j < index) && history[j].at(method) == Some(span)
}

/// Whether the entry of `history` at `index` stays when duplicates are
/// removed: it belongs to an actual run, or holds no time at all, or holds
/// under some method a duration that was not met before.
pub open spec fn survives_dedup(history: Map<int, Time>, index: int) -> bool {
    let time = history[index];
    ||| index >= 1
    ||| time.is_none()
    ||| time.real_time is Some && !seen_before(
        history,
        index,
        TimingMethod::RealTime,
        time.real_time->0,
    )
    ||| time.game_time is Some && !seen_before(
        history,
        index,
        TimingMethod::GameTime,
        time.game_time->0,
    )
}

/// `history` without its synthetic duplicates.
pub open spec fn deduplicated(history: Map<int, Time>) -> Map<int, Time> {
    Map::new(
        |k: int| history.dom().contains(k) && survives_dedup(history, k),
        |k: int| history[k],
    )
}

/// Any two lowest indices of one history are the same.
pub proof fn lemma_min_index_unique(history: Map<int, Time>, a: int, b: int)
    requires
        is_min_index(history, a),
        is_min_index(history, b),
    ensures
        a == b,
{
}

/// A lowest index that was found is the lowest index.
pub proof fn lemma_min_index_is(history: Map<int, Time>, m: int)
    requires
        is_min_index(history, m),
    ensures
        min_index(history) == m,
{
    lemma_min_index_unique(history, m, min_index(history));
}

spec fn has_index(entries: Seq<(i32, Time)>, k: int) -> bool {
    exists|i: int| 0 <= i < entries.len() && (#[trigger] entries[i]).0 == k
}

spec fn position_of(entries: Seq<(i32, Time)>, k: int) -> int {
    choose|i: int| 0 <= i < entries.len() && (#[trigger] entries[i]).0 == k
}

spec fn as_map(entries: Seq<(i32, Time)>) -> Map<int, Time> {
    Map::new(|k: int| has_index(entries, k), |k: int| entries[position_of(entries, k)].1)
}

proof fn lemma_as_map(entries: Seq<(i32, Time)>)
    requires
        strictly_ordered(entries),
    ensures
        lists(entries, as_map(entries)),
{
    let history = as_map(entries);
    assert forall|i: int| 0 <= i < entries.len() implies history.contains_pair(
        (#[trigger] entries[i]).0 as int,
        entries[i].1,
    ) by {
        let k = entries[i].0 as int;
        assert(has_index(entries, k));
        let p = position_of(entries, k);
        assert(p == i) by {
            if p < i {
                assert(entries[p].0 < entries[i].0);
            } else if i < p {
                assert(entries[i].0 < entries[p].0);
            }
        }
    }
}

proof fn lemma_lists_same(entries: Seq<(i32, Time)>, a: Map<int, Time>, b: Map<int, Time>)
    requires
        lists(entries, a),
        lists(entries, b),
    ensures
        a == b,
{
    assert forall|k: int| a.dom().contains(k) implies b.dom().contains(k) && a[k] == b[k] by {
        let i = choose|i: int| 0 <= i < entries.len() && (#[trigger] entries[i]).0 == k;
        assert(b.contains_pair(entries[i].0 as int, entries[i].1));
        assert(a.contains_pair(entries[i].0 as int, entries[i].1));
    }
    assert forall|k: int| b.dom().contains(k) implies a.dom().contains(k) by {
        let i = choose|i: int| 0 <= i < entries.len() && (#[trigger] entries[i]).0 == k;
        assert(a.contains_pair(entries[i].0 as int, entries[i].1));
    }
    assert(a =~= b);
}

/// What was listed is what the entries stand for.
proof fn lemma_listed(entries: Seq<(i32, Time)>, history: Map<int, Time>)
    requires
        lists(entries, history),
    ensures
        as_map(entries) == history,
{
    lemma_as_map(entries);
    lemma_lists_same(entries, as_map(entries), history);
}

/// Replacing the time of one entry replaces it in the mapping.
proof fn lemma_update_lists(before: Seq<(i32, Time)>, history: Map<int, Time>, p: int, time: Time)
    requires
        lists(before, history),
        0 <= p < before.len(),
    ensures
        lists(before.update(p, (before[p].0, time)), history.insert(before[p].0 as int, time)),
{
    let index = before[p].0;
    let after = before.update(p, (index, time));
    let target = history.insert(index as int, time);
    assert forall|i: int| 0 <= i < after.len() implies target.contains_pair(
        (#[trigger] after[i]).0 as int,
        after[i].1,
    ) by {
        if i != p {
            assert(after[i] == before[i]);
            assert(history.contains_pair(before[i].0 as int, before[i].1));
            if i < p {
                assert(before[i].0 < before[p].0);
            } else {
                assert(before[p].0 < before[i].0);
            }
        }
    }
    assert forall|k: int| #[trigger] target.dom().contains(k) implies exists|i: int|
        0 <= i < after.len() && (#[trigger] after[i]).0 == k by {
        if k == index {
            assert(after[p].0 == k);
        } else {
            assert(history.dom().contains(k));
            let i = choose|i: int| 0 <= i < before.len() && (#[trigger] before[i]).0 == k;
            assert(after[i].0 == k);
        }
    }
    assert forall|i: int, j: int| 0 <= i < j < after.len() implies after[i].0 < after[j].0 by {
        assert(after[i].0 == before[i].0);
        assert(after[j].0 == before[j].0);
    }
}

/// Putting an entry in at its place in the order adds it to the mapping.
proof fn lemma_insert_lists(
    before: Seq<(i32, Time)>,
    history: Map<int, Time>,
    p: int,
    index: i32,
    time: Time,
)
    requires
        lists(before, history),
        0 <= p <= before.len(),
        forall|i: int| 0 <= i < p ==> (#[trigger] before[i]).0 < index,
        forall|i: int| p <= i < before.len() ==> (#[trigger] before[i]).0 > index,
    ensures
        lists(before.insert(p, (index, time)), history.insert(index as int, time)),
{
    let after = before.insert(p, (index, time));
    let target = history.insert(index as int, time);
    assert forall|i: int| 0 <= i < after.len() implies target.contains_pair(
        (#[trigger] after[i]).0 as int,
        after[i].1,
    ) by {
        if i < p {
            assert(after[i] == before[i]);
            assert(history.contains_pair(before[i].0 as int, before[i].1));
        } else if i > p {
            assert(after[i] == before[i - 1]);
            assert(history.contains_pair(before[i - 1].0 as int, before[i - 1].1));
        }
    }
    assert forall|k: int| #[trigger] target.dom().contains(k) implies exists|i: int|
        0 <= i < after.len() && (#[trigger] after[i]).0 == k by {
        if k == index {
            assert(after[p].0 == k);
        } else {
            assert(history.dom().contains(k));
            let i = choose|i: int| 0 <= i < before.len() && (#[trigger] before[i]).0 == k;
            if i < p {
                assert(after[i].0 == k);
            } else {
                assert(after[i + 1] == before[i]);
                assert(after[i + 1].0 == k);
            }
        }
    }
    assert forall|i: int, j: int| 0 <= i < j < after.len() implies after[i].0 < after[j].0 by {
        let a = if i < p {
            before[i]
        } else if i == p {
            (index, time)
        } else {
            before[i - 1]
        };
        let b = if j < p {
            before[j]
        } else if j == p {
            (index, time)
        } else {
            before[j - 1]
        };
        assert(after[i] == a);
        assert(after[j] == b);
    }
}

/// Taking an entry out takes its index out of the mapping.
proof fn lemma_remove_lists(before: Seq<(i32, Time)>, history: Map<int, Time>, p: int)
    requires
        lists(before, history),
        0 <= p < before.len(),
    ensures
        lists(before.remove(p), history.remove(before[p].0 as int)),
{
    let after = before.remove(p);
    let target = history.remove(before[p].0 as int);
    assert forall|i: int| 0 <= i < after.len() implies target.contains_pair(
        (#[trigger] after[i]).0 as int,
        after[i].1,
    ) by {
        if i < p {
            assert(after[i] == before[i]);
            assert(history.contains_pair(before[i].0 as int, before[i].1));
            assert(before[i].0 < before[p].0);
        } else {
            assert(after[i] == before[i + 1]);
            assert(history.contains_pair(before[i + 1].0 as int, before[i + 1].1));
            assert(before[p].0 < before[i + 1].0);
        }
    }
    assert forall|k: int| #[trigger] target.dom().contains(k) implies exists|i: int|
        0 <= i < after.len() && (#[trigger] after[i]).0 == k by {
        assert(history.dom().contains(k));
        let i = choose|i: int| 0 <= i < before.len() && (#[trigger] before[i]).0 == k;
        if i < p {
            assert(after[i].0 == k);
        } else {
            assert(after[i - 1] == before[i]);
            assert(after[i - 1].0 == k);
        }
    }
    assert forall|i: int, j: int| 0 <= i < j < after.len() implies after[i].0 < after[j].0 by {
        let a = if i < p {
            before[i]
        } else {
            before[i + 1]
        };
        let b = if j < p {
            before[j]
        } else {
            before[j + 1]
        };
        assert(after[i] == a);
        assert(after[j] == b);
    }
}

/// An index that the order has no place for is not in the mapping.
proof fn lemma_absent(before: Seq<(i32, Time)>, history: Map<int, Time>, p: int, index: i32)
    requires
        lists(before, history),
        0 <= p <= before.len(),
        forall|i: int| 0 <= i < p ==> (#[trigger] before[i]).0 < index,
        forall|i: int| p <= i < before.len() ==> (#[trigger] before[i]).0 > index,
    ensures
        !history.dom().contains(index as int),
{
    if history.dom().contains(index as int) {
        let i = choose|i: int| 0 <= i < before.len() && (#[trigger] before[i]).0 == index;
        assert(before[i].0 == index);
    }
}

/// The part of `history` whose indices are below `bound`.
spec fn below(history: Map<int, Time>, bound: int) -> Map<int, Time> {
    Map::new(|k: int| history.dom().contains(k) && k < bound, |k: int| history[k])
}

/// The index of the entry at `i`, or a bound above every index at the end
/// of the entries.
spec fn bound_at(all: Seq<(i32, Time)>, i: int) -> int {
    if i < all.len() {
        all[i].0 as int
    } else {
        i32::MAX as int + 1
    }
}

/// How the indices below the bound grow when a walk through the entries
/// takes one step.
proof fn lemma_walk(all: Seq<(i32, Time)>, history: Map<int, Time>, i: int)
    requires
        lists(all, history),
        0 <= i <= all.len(),
    ensures
        i == 0 ==> forall|k: int| history.dom().contains(k) ==> k >= bound_at(all, 0),
        i < all.len() ==> history.contains_pair(all[i].0 as int, all[i].1),
        i < all.len() ==> bound_at(all, i) < bound_at(all, i + 1),
        i < all.len() ==> forall|k: int|
            history.dom().contains(k) ==> !(bound_at(all, i) < k < bound_at(all, i + 1)),
        i == all.len() ==> forall|k: int| history.dom().contains(k) ==> k < bound_at(all, i),
{
    assert forall|k: int| history.dom().contains(k) implies (i == 0 ==> k >= bound_at(all, 0)) && (i
        < all.len() ==> !(bound_at(all, i) < k < bound_at(all, i + 1))) && (i == all.len() ==> k
        < bound_at(all, i)) by {
        let p = choose|p: int| 0 <= p < all.len() && (#[trigger] all[p]).0 == k;
        assert(all[p].0 == k);
        if i < all.len() {
            if p < i {
                assert(all[p].0 < all[i].0);
            } else if p > i {
                if i + 1 < all.len() && p > i + 1 {
                    assert(all[i + 1].0 < all[p].0);
                }
            }
            if i == 0 && p > 0 {
                assert(all[0].0 < all[p].0);
            }
        }
    }
    if i < all.len() {
        assert(history.contains_pair(all[i].0 as int, all[i].1));
        if i + 1 < all.len() {
            assert(all[i].0 < all[i + 1].0);
        }
    }
}

/// An entry above all others goes to the end.
proof fn lemma_push_lists(out: Seq<(i32, Time)>, target: Map<int, Time>, index: i32, time: Time)
    requires
        lists(out, target),
        forall|k: int| target.dom().contains(k) ==> k < index,
    ensures
        lists(out.push((index, time)), target.insert(index as int, time)),
{
    let after = out.push((index, time));
    let grown = target.insert(index as int, time);
    assert forall|i: int| 0 <= i < after.len() implies grown.contains_pair(
        (#[trigger] after[i]).0 as int,
        after[i].1,
    ) by {
        if i < out.len() {
            assert(after[i] == out[i]);
            assert(target.contains_pair(out[i].0 as int, out[i].1));
        }
    }
    assert forall|k: int| #[trigger] grown.dom().contains(k) implies exists|i: int|
        0 <= i < after.len() && (#[trigger] after[i]).0 == k by {
        if k == index {
            assert(after[out.len() as int].0 == k);
        } else {
            assert(target.dom().contains(k));
            let i = choose|i: int| 0 <= i < out.len() && (#[trigger] out[i]).0 == k;
            assert(after[i].0 == k);
        }
    }
    assert forall|i: int, j: int| 0 <= i < j < after.len() implies after[i].0 < after[j].0 by {
        assert(after[i] == out[i]);
        assert(target.contains_pair(out[i].0 as int, out[i].1));
        if j < out.len() {
            assert(after[j] == out[j]);
        }
    }
}

/// Nothing lists the empty mapping.
proof fn lemma_empty_lists()
    ensures
        lists(Seq::<(i32, Time)>::empty(), Map::<int, Time>::empty()),
{
}

/// Whether an actual run of `history` with an index below `bound` holds the
/// duration of `millis` milliseconds under `method`.
spec fn seeded(history: Map<int, Time>, bound: int, method: TimingMethod, millis: i64) -> bool {
    exists|j: int|
        #![trigger history.dom().contains(j)]
        history.dom().contains(j) && j >= 1 && j < bound && history[j].at(method) == Some(
            TimeSpan { millis },
        )
}

/// What one step of the look at the actual runs adds.
proof fn lemma_seeded_step(
    all: Seq<(i32, Time)>,
    history: Map<int, Time>,
    i: int,
    method: TimingMethod,
)
    requires
        lists(all, history),
        0 <= i < all.len(),
    ensures
        forall|v: i64|
            seeded(history, bound_at(all, i + 1), method, v) <==> seeded(
                history,
                bound_at(all, i),
                method,
                v,
            ) || (all[i].0 >= 1 && all[i].1.at(method) == Some(TimeSpan { millis: v })),
{
    lemma_walk(all, history, i);
    let k = all[i].0 as int;
    assert forall|v: i64|
        seeded(history, bound_at(all, i + 1), method, v) <==> seeded(
            history,
            bound_at(all, i),
            method,
            v,
        ) || (all[i].0 >= 1 && all[i].1.at(method) == Some(TimeSpan { millis: v })) by {
        let span = Some(TimeSpan { millis: v });
        if seeded(history, bound_at(all, i + 1), method, v) {
            let j = choose|j: int|
                #![trigger history.dom().contains(j)]
                history.dom().contains(j) && j >= 1 && j < bound_at(all, i + 1) && history[j].at(
                    method,
                ) == span;
            if j != k {
                assert(history.dom().contains(j) && j >= 1 && j < bound_at(all, i));
            }
        }
        if seeded(history, bound_at(all, i), method, v) {
            let j = choose|j: int|
                #![trigger history.dom().contains(j)]
                history.dom().contains(j) && j >= 1 && j < bound_at(all, i) && history[j].at(
                    method,
                ) == span;
            assert(history.dom().contains(j) && j < bound_at(all, i + 1));
        }
        if all[i].0 >= 1 && all[i].1.at(method) == span {
            assert(history.dom().contains(k) && k < bound_at(all, i + 1));
        }
    }
}

/// After the look at all actual runs, what was found is what a walk has met
/// before its first step.
proof fn lemma_seeded_all(all: Seq<(i32, Time)>, history: Map<int, Time>, method: TimingMethod)
    requires
        lists(all, history),
    ensures
        forall|v: i64|
            seeded(history, bound_at(all, all.len() as int), method, v) <==> seen_before(
                history,
                bound_at(all, 0),
                method,
                TimeSpan { millis: v },
            ),
{
    lemma_walk(all, history, 0);
    lemma_walk(all, history, all.len() as int);
    assert forall|v: i64|
        seeded(history, bound_at(all, all.len() as int), method, v) <==> seen_before(
            history,
            bound_at(all, 0),
            method,
            TimeSpan { millis: v },
        ) by {
        let span = Some(TimeSpan { millis: v });
        if seeded(history, bound_at(all, all.len() as int), method, v) {
            let j = choose|j: int|
                #![trigger history.dom().contains(j)]
                history.dom().contains(j) && j >= 1 && j < bound_at(all, all.len() as int)
                    && history[j].at(method) == span;
            assert(history.dom().contains(j) && (j >= 1 || j < bound_at(all, 0)));
        }
        if seen_before(history, bound_at(all, 0), method, TimeSpan { millis: v }) {
            let j = choose|j: int|
                #![trigger history.dom().contains(j)]
                history.dom().contains(j) && (j >= 1 || j < bound_at(all, 0)) && history[j].at(
                    method,
                ) == span;
            assert(history.dom().contains(j) && j >= 1 && j < bound_at(all, all.len() as int));
        }
    }
}

/// What one step of the walk adds to what it has met.
proof fn lemma_seen_step(
    all: Seq<(i32, Time)>,
    history: Map<int, Time>,
    i: int,
    method: TimingMethod,
)
    requires
        lists(all, history),
        0 <= i < all.len(),
    ensures
        forall|v: i64|
            seen_before(history, bound_at(all, i + 1), method, TimeSpan { millis: v })
                <==> seen_before(history, bound_at(all, i), method, TimeSpan { millis: v }) || (
            all[i].1.at(method) == Some(TimeSpan { millis: v })),
{
    lemma_walk(all, history, i);
    let k = all[i].0 as int;
    assert forall|v: i64|
        seen_before(history, bound_at(all, i + 1), method, TimeSpan { millis: v })
            <==> seen_before(history, bound_at(all, i), method, TimeSpan { millis: v }) || (
        all[i].1.at(method) == Some(TimeSpan { millis: v })) by {
        let span = Some(TimeSpan { millis: v });
        if seen_before(history, bound_at(all, i + 1), method, TimeSpan { millis: v }) {
            let j = choose|j: int|
                #![trigger history.dom().contains(j)]
                history.dom().contains(j) && (j >= 1 || j < bound_at(all, i + 1))
                    && history[j].at(method) == span;
            if j != k {
                assert(history.dom().contains(j) && (j >= 1 || j < bound_at(all, i)));
            }
        }
        if seen_before(history, bound_at(all, i), method, TimeSpan { millis: v }) {
            let j = choose|j: int|
                #![trigger history.dom().contains(j)]
                history.dom().contains(j) && (j >= 1 || j < bound_at(all, i)) && history[j].at(
                    method,
                ) == span;
            assert(history.dom().contains(j) && (j >= 1 || j < bound_at(all, i + 1)));
        }
        if all[i].1.at(method) == span {
            assert(history.dom().contains(k) && (k >= 1 || k < bound_at(all, i + 1)));
        }
    }
}

/// The history of one segment.
pub struct SegmentHistory {
    entries: Vec<(i32, Time)>,
}

impl View for SegmentHistory {
    type V = Map<int, Time>;

    closed spec fn view(&self) -> Map<int, Time> {
        as_map(self.entries@)
    }
}

impl SegmentHistory {
    /// The entries are kept in order of index, each index once.
    pub closed spec fn wf(&self) -> bool {
        strictly_ordered(self.entries@)
    }

    /// Every index of a history is a 32-bit number.
    pub proof fn lemma_indices_in_range(&self)
        requires
            self.wf(),
        ensures
            forall|k: int| self@.dom().contains(k) ==> i32::MIN <= k <= i32::MAX,
    {
        lemma_as_map(self.entries@);
        assert forall|k: int| self@.dom().contains(k) implies i32::MIN <= k <= i32::MAX by {
            let i = choose|i: int| 0 <= i < self.entries@.len() && (#[trigger] self.entries@[i]).0 == k;
            assert(self.entries@[i].0 == k);
        }
    }

    /// A history without entries.
    pub fn new() -> (history: SegmentHistory)
        ensures
            history.wf(),
            history@ == Map::<int, Time>::empty(),
    {
        let history = SegmentHistory { entries: Vec::new() };
        proof {
            assert(history@ =~= Map::<int, Time>::empty());
        }
        history
    }

    /// Where `index` stands among the entries, or where it would be put.
    fn position(&self, index: i32) -> (found: Result<usize, usize>)
        requires
            self.wf(),
        ensures
            match found {
                Ok(p) => p < self.entries@.len() && self.entries@[p as int].0 == index,
                Err(p) => {
                    &&& p <= self.entries@.len()
                    &&& forall|i: int| 0 <= i < p ==> (#[trigger] self.entries@[i]).0 < index
                    &&& forall|i: int|
                        p <= i < self.entries@.len() ==> (#[trigger] self.entries@[i]).0 > index
                },
            },
    {
        let mut low: usize = 0;
        let mut high: usize = self.entries.len();
        while low < high
            invariant
                self.wf(),
                low <= high <= self.entries@.len(),
                forall|i: int| 0 <= i < low ==> (#[trigger] self.entries@[i]).0 < index,
                forall|i: int|
                    high <= i < self.entries@.len() ==> (#[trigger] self.entries@[i]).0 > index,
            decreases high - low,
        {
            let mid: usize = low + (high - low) / 2;
            let at: i32 = self.entries[mid].0;
            if at == index {
                return Ok(mid);
            } else if at < index {
                low = mid + 1;
            } else {
                high = mid;
            }
        }
        Err(low)
    }

    /// The time at `index`, if the history has one.
    pub fn get(&self, index: i32) -> (time: Option<Time>)
        requires
            self.wf(),
        ensures
            time == lookup(self@, index as int),
    {
        proof {
            lemma_as_map(self.entries@);
        }
        match self.position(index) {
            Ok(p) => {
                let entry: (i32, Time) = self.entries[p];
                assert(self@.contains_pair(self.entries@[p as int].0 as int, entry.1));
                Some(entry.1)
            },
            Err(_) => None,
        }
    }

    /// Puts `time` at `index`, in place of the time that was there if there
    /// was one.
    pub fn insert(&mut self, index: i32, time: Time)
        requires
            old(self).wf(),
        ensures
            final(self).wf(),
            final(self)@ == old(self)@.insert(index as int, time),
    {
        let ghost before = self.entries@;
        proof {
            lemma_as_map(before);
        }
        match self.position(index) {
            Ok(p) => {
                self.entries[p] = (index, time);
                proof {
                    assert(self.entries@ == before.update(p as int, (index, time)));
                    lemma_update_lists(before, as_map(before), p as int, time);
                    lemma_listed(self.entries@, as_map(before).insert(index as int, time));
                }
            },
            Err(p) => {
                self.entries.insert(p, (index, time));
                proof {
                    lemma_insert_lists(before, as_map(before), p as int, index, time);
                    lemma_listed(self.entries@, as_map(before).insert(index as int, time));
                }
            },
        }
    }

    /// Takes out the entry at `index`, if there is one.
    pub fn remove(&mut self, index: i32)
        requires
            old(self).wf(),
        ensures
            final(self).wf(),
            final(self)@ == old(self)@.remove(index as int),
    {
        let ghost before = self.entries@;
        proof {
            lemma_as_map(before);
        }
        match self.position(index) {
            Ok(p) => {
                self.entries.remove(p);
                proof {
                    lemma_remove_lists(before, as_map(before), p as int);
                    lemma_listed(self.entries@, as_map(before).remove(index as int));
                }
            },
            Err(p) => {
                proof {
                    lemma_absent(before, as_map(before), p as int, index);
                    assert(as_map(before) =~= as_map(before).remove(index as int));
                }
            },
        }
    }

    /// Takes out every entry.
    pub fn clear(&mut self)
        ensures
            final(self).wf(),
            final(self)@ == Map::<int, Time>::empty(),
    {
        self.entries.clear();
        proof {
            assert(self@ =~= Map::<int, Time>::empty());
        }
    }

    /// Whether the history has no entry.
    pub fn is_empty(&self) -> (empty: bool)
        requires
            self.wf(),
        ensures
            empty == (self@ == Map::<int, Time>::empty()),
    {
        proof {
            lemma_as_map(self.entries@);
            if self.entries@.len() == 0 {
                assert(self@ =~= Map::<int, Time>::empty());
            } else {
                assert(self@.dom().contains(self.entries@[0].0 as int));
            }
        }
        self.entries.len() == 0
    }

    /// The lowest index, if there is an entry.
    pub fn try_get_min_index(&self) -> (index: Option<i32>)
        requires
            self.wf(),
        ensures
            match index {
                Some(m) => self@.dom().contains(m as int) && forall|k: int|
                    self@.dom().contains(k) ==> m <= k,
                None => self@ == Map::<int, Time>::empty(),
            },
    {
        proof {
            lemma_as_map(self.entries@);
        }
        if self.entries.len() == 0 {
            proof {
                assert(self@ =~= Map::<int, Time>::empty());
            }
            None
        } else {
            let first: (i32, Time) = self.entries[0];
            proof {
                assert(self@.contains_pair(self.entries@[0].0 as int, first.1));
                assert forall|k: int| self@.dom().contains(k) implies first.0 <= k by {
                    let i = choose|i: int|
                        0 <= i < self.entries@.len() && (#[trigger] self.entries@[i]).0 == k;
                    if i > 0 {
                        assert(self.entries@[0].0 < self.entries@[i].0);
                    }
                }
            }
            Some(first.0)
        }
    }

    /// The highest index, if there is an entry.
    pub fn try_get_max_index(&self) -> (index: Option<i32>)
        requires
            self.wf(),
        ensures
            match index {
                Some(m) => self@.dom().contains(m as int) && forall|k: int|
                    self@.dom().contains(k) ==> k <= m,
                None => self@ == Map::<int, Time>::empty(),
            },
    {
        proof {
            lemma_as_map(self.entries@);
        }
        let len = self.entries.len();
        if len == 0 {
            proof {
                assert(self@ =~= Map::<int, Time>::empty());
            }
            None
        } else {
            let last: (i32, Time) = self.entries[len - 1];
            proof {
                assert(self@.contains_pair(self.entries@[len - 1].0 as int, last.1));
                assert forall|k: int| self@.dom().contains(k) implies k <= last.0 by {
                    let i = choose|i: int|
                        0 <= i < self.entries@.len() && (#[trigger] self.entries@[i]).0 == k;
                    if i < len - 1 {
                        assert(self.entries@[i].0 < self.entries@[len - 1].0);
                    }
                }
            }
            Some(last.0)
        }
    }

    /// The lowest index, capped at 1: one below it is free for a synthetic
    /// entry.
    pub fn min_index(&self) -> (index: i32)
        requires
            self.wf(),
        ensures
            index == min_index(self@),
            is_min_index(self@, index as int),
    {
        let index: i32 = match self.try_get_min_index() {
            Some(m) => if m < 1 {
                m
            } else {
                1
            },
            None => 1,
        };
        proof {
            lemma_min_index_is(self@, index as int);
        }
        index
    }

    /// The entries, lowest index first.
    pub fn entries(&self) -> (entries: Vec<(i32, Time)>)
        requires
            self.wf(),
        ensures
            lists(entries@, self@),
    {
        let mut entries: Vec<(i32, Time)> = Vec::new();
        let mut i: usize = 0;
        while i < self.entries.len()
            invariant
                i <= self.entries@.len(),
                entries@ == self.entries@.subrange(0, i as int),
            decreases self.entries@.len() - i,
        {
            let entry: (i32, Time) = self.entries[i];
            entries.push(entry);
            i += 1;
            proof {
                assert(entries@ =~= self.entries@.subrange(0, i as int));
            }
        }
        proof {
            assert(entries@ =~= self.entries@);
            lemma_as_map(self.entries@);
        }
        entries
    }

    /// The entries of actual runs, lowest index first.
    pub fn actual_runs(&self) -> (entries: Vec<(i32, Time)>)
        requires
            self.wf(),
        ensures
            lists(entries@, actual_runs(self@)),
    {
        let ghost all = self.entries@;
        let ghost history = self@;
        proof {
            lemma_as_map(all);
            lemma_walk(all, history, 0);
            lemma_empty_lists();
            assert(actual_runs(below(history, bound_at(all, 0))) =~= Map::<int, Time>::empty());
        }
        let mut entries: Vec<(i32, Time)> = Vec::new();
        let mut i: usize = 0;
        while i < self.entries.len()
            invariant
                all == self.entries@,
                history == self@,
                lists(all, history),
                i <= all.len(),
                lists(entries@, actual_runs(below(history, bound_at(all, i as int)))),
            decreases all.len() - i,
        {
            let entry: (i32, Time) = self.entries[i];
            let ghost found = actual_runs(below(history, bound_at(all, i as int)));
            let ghost next = actual_runs(below(history, bound_at(all, i + 1)));
            proof {
                lemma_walk(all, history, i as int);
            }
            if entry.0 >= 1 {
                proof {
                    lemma_push_lists(entries@, found, entry.0, entry.1);
                    assert(next =~= found.insert(entry.0 as int, entry.1));
                }
                entries.push(entry);
            } else {
                proof {
                    assert(next =~= found);
                }
            }
            i += 1;
        }
        proof {
            lemma_walk(all, history, all.len() as int);
            assert(actual_runs(below(history, bound_at(all, all.len() as int))) =~= actual_runs(
                history,
            ));
        }
        entries
    }

    /// Raises every time under `method` that is below `floor` to `floor`.
    pub fn raise_to(&mut self, method: TimingMethod, floor: TimeSpan)
        requires
            old(self).wf(),
        ensures
            final(self).wf(),
            final(self)@ == raised(old(self)@, method, floor),
    {
        let ghost all = self.entries@;
        let ghost history = self@;
        proof {
            lemma_as_map(all);
            lemma_walk(all, history, 0);
            lemma_empty_lists();
            assert(raised(below(history, bound_at(all, 0)), method, floor) =~= Map::<
                int,
                Time,
            >::empty());
        }
        let mut out: Vec<(i32, Time)> = Vec::new();
        let mut i: usize = 0;
        while i < self.entries.len()
            invariant
                all == self.entries@,
                lists(all, history),
                i <= all.len(),
                lists(out@, raised(below(history, bound_at(all, i as int)), method, floor)),
            decreases all.len() - i,
        {
            let entry: (i32, Time) = self.entries[i];
            let ghost found = raised(below(history, bound_at(all, i as int)), method, floor);
            let ghost next = raised(below(history, bound_at(all, i + 1)), method, floor);
            proof {
                lemma_walk(all, history, i as int);
            }
            let time: Time = match entry.1.get(method) {
                Some(span) => if span.is_less_than(floor) {
                    entry.1.with_timing_method(method, Some(floor))
                } else {
                    entry.1
                },
                None => entry.1,
            };
            proof {
                assert(time == raise(entry.1, method, floor));
                lemma_push_lists(out@, found, entry.0, time);
                assert(next =~= found.insert(entry.0 as int, time));
            }
            out.push((entry.0, time));
            i += 1;
        }
        proof {
            lemma_walk(all, history, all.len() as int);
            assert(raised(below(history, bound_at(all, all.len() as int)), method, floor)
                =~= raised(history, method, floor));
            lemma_listed(out@, raised(history, method, floor));
        }
        self.entries = out;
    }

    /// Removes the synthetic entries that repeat a time. The entries are
    /// gone through in order of index, after every actual run has been
    /// looked at. A synthetic entry stays if it holds no time at all, or if
    /// under some timing method it holds a duration that was not met before.
    /// Entries of actual runs always stay.
    pub fn remove_duplicates(&mut self)
        requires
            old(self).wf(),
        ensures
            final(self).wf(),
            final(self)@ == deduplicated(old(self)@),
    {
        let ghost all = self.entries@;
        let ghost history = self@;
        proof {
            lemma_as_map(all);
        }
        let mut real_times: HashSet<i64> = HashSet::new();
        let mut game_times: HashSet<i64> = HashSet::new();
        let len = self.entries.len();
        let mut i: usize = 0;
        proof {
            lemma_walk(all, history, 0);
        }
        while i < len
            invariant
                all == self.entries@,
                len == all.len(),
                lists(all, history),
                i <= len,
                forall|v: i64|
                    real_times@.contains(v) <==> seeded(
                        history,
                        bound_at(all, i as int),
                        TimingMethod::RealTime,
                        v,
                    ),
                forall|v: i64|
                    game_times@.contains(v) <==> seeded(
                        history,
                        bound_at(all, i as int),
                        TimingMethod::GameTime,
                        v,
                    ),
            decreases len - i,
        {
            let entry: (i32, Time) = self.entries[i];
            proof {
                lemma_seeded_step(all, history, i as int, TimingMethod::RealTime);
                lemma_seeded_step(all, history, i as int, TimingMethod::GameTime);
            }
            if entry.0 >= 1 {
                if let Some(span) = entry.1.real_time {
                    real_times.insert(span.total_milliseconds());
                }
                if let Some(span) = entry.1.game_time {
                    game_times.insert(span.total_milliseconds());
                }
            }
            i += 1;
        }
        proof {
            lemma_seeded_all(all, history, TimingMethod::RealTime);
            lemma_seeded_all(all, history, TimingMethod::GameTime);
            lemma_walk(all, history, 0);
            lemma_empty_lists();
            assert(below(deduplicated(history), bound_at(all, 0)) =~= Map::<int, Time>::empty());
        }
        let mut kept: Vec<(i32, Time)> = Vec::new();
        let mut i: usize = 0;
        while i < len
            invariant
                all == self.entries@,
                len == all.len(),
                lists(all, history),
                i <= len,
                forall|v: i64|
                    real_times@.contains(v) <==> seen_before(
                        history,
                        bound_at(all, i as int),
                        TimingMethod::RealTime,
                        TimeSpan { millis: v },
                    ),
                forall|v: i64|
                    game_times@.contains(v) <==> seen_before(
                        history,
                        bound_at(all, i as int),
                        TimingMethod::GameTime,
                        TimeSpan { millis: v },
                    ),
                lists(kept@, below(deduplicated(history), bound_at(all, i as int))),
            decreases len - i,
        {
            let entry: (i32, Time) = self.entries[i];
            let ghost found = below(deduplicated(history), bound_at(all, i as int));
            let ghost next = below(deduplicated(history), bound_at(all, i + 1));
            proof {
                lemma_walk(all, history, i as int);
                lemma_seen_step(all, history, i as int, TimingMethod::RealTime);
                lemma_seen_step(all, history, i as int, TimingMethod::GameTime);
            }
            let mut keep: bool = true;
            if entry.0 < 1 {
                let mut is_none: bool = true;
                let mut is_unique: bool = false;
                if let Some(span) = entry.1.real_time {
                    let fresh: bool = real_times.insert(span.total_milliseconds());
                    is_unique = is_unique || fresh;
                    is_none = false;
                }
                if let Some(span) = entry.1.game_time {
                    let fresh: bool = game_times.insert(span.total_milliseconds());
                    is_unique = is_unique || fresh;
                    is_none = false;
                }
                keep = is_none || is_unique;
            }
            proof {
                assert(keep == survives_dedup(history, entry.0 as int));
            }
            if keep {
                proof {
                    lemma_push_lists(kept@, found, entry.0, entry.1);
                    assert(next =~= found.insert(entry.0 as int, entry.1));
                }
                kept.push(entry);
            } else {
                proof {
                    assert(next =~= found);
                }
            }
            i += 1;
        }
        proof {
            lemma_walk(all, history, all.len() as int);
            assert(below(deduplicated(history), bound_at(all, all.len() as int)) =~= deduplicated(
                history,
            ));
            lemma_listed(kept@, deduplicated(history));
        }
        self.entries = kept;
    }

    /// Keeps only the entries that `keep` says yes to. The entries are
    /// asked in order of index, each once.
    pub fn retain<F: Fn(&(i32, Time)) -> bool>(&mut self, keep: F)
        requires
            old(self).wf(),
            forall|k: int| #[trigger]
                old(self)@.dom().contains(k) ==> call_requires(
                    keep,
                    (&(k as i32, old(self)@[k]),),
                ),
        ensures
            final(self).wf(),
            forall|k: int| #[trigger]
                final(self)@.dom().contains(k) ==> old(self)@.dom().contains(k) && final(self)@[k]
                    == old(self)@[k] && call_ensures(keep, (&(k as i32, old(self)@[k]),), true),
            forall|k: int| #[trigger]
                old(self)@.dom().contains(k) && !final(self)@.dom().contains(k) ==> call_ensures(
                    keep,
                    (&(k as i32, old(self)@[k]),),
                    false,
                ),
    {
        let ghost all = self.entries@;
        let ghost history = self@;
        let ghost mut chosen: Map<int, Time> = Map::empty();
        proof {
            lemma_as_map(all);
            lemma_walk(all, history, 0);
            lemma_empty_lists();
        }
        let mut kept: Vec<(i32, Time)> = Vec::new();
        let mut i: usize = 0;
        while i < self.entries.len()
            invariant
                all == self.entries@,
                history == old(self)@,
                lists(all, history),
                i <= all.len(),
                lists(kept@, chosen),
                forall|k: int| #[trigger]
                    history.dom().contains(k) ==> call_requires(keep, (&(k as i32, history[k]),)),
                forall|k: int| #[trigger]
                    chosen.dom().contains(k) ==> history.dom().contains(k) && k < bound_at(
                        all,
                        i as int,
                    ) && chosen[k] == history[k] && call_ensures(
                        keep,
                        (&(k as i32, history[k]),),
                        true,
                    ),
                forall|k: int| #[trigger]
                    history.dom().contains(k) && k < bound_at(all, i as int)
                        && !chosen.dom().contains(k) ==> call_ensures(
                        keep,
                        (&(k as i32, history[k]),),
                        false,
                    ),
            decreases all.len() - i,
        {
            let entry: (i32, Time) = self.entries[i];
            proof {
                lemma_walk(all, history, i as int);
                assert(history.dom().contains(entry.0 as int));
            }
            if keep(&entry) {
                proof {
                    lemma_push_lists(kept@, chosen, entry.0, entry.1);
                    chosen = chosen.insert(entry.0 as int, entry.1);
                }
                kept.push(entry);
            }
            i += 1;
        }
        proof {
            lemma_walk(all, history, all.len() as int);
            lemma_listed(kept@, chosen);
        }
        self.entries = kept;
    }
}

} // verus!
