//! The passes that bring the segments of a run back into a consistent
//! state: what each pass makes of the segments, and the pass itself.

use crate::attempt::{max_attempt_index, max_index, Attempt};
use crate::segment::{all_wf, views, with_comparison, Segment, SegmentView, PERSONAL_BEST};
use crate::segment_history::{deduplicated, lookup, raised, skipped_only};
use crate::text::names;
use crate::time::{Time, TimeSpan, TimingMethod};
use vstd::prelude::*;

verus! {

/// `segment` without a best segment time under `method` where that time
/// was negative.
pub open spec fn without_negative_best(segment: SegmentView, method: TimingMethod) -> SegmentView {
    match segment.best_segment_time.at(method) {
        Some(best) if best.millis < 0 => SegmentView {
            best_segment_time: segment.best_segment_time.with(method, None),
            ..segment
        },
        _ => segment,
    }
}

/// `segment` with a history that holds no time under `method`, where the
/// segment has no best segment time under `method`: without a best segment
/// time, a time in the history is stale.
pub open spec fn without_stale_history(segment: SegmentView, method: TimingMethod) -> SegmentView {
    if segment.best_segment_time.at(method) is None {
        SegmentView { history: skipped_only(segment.history, method), ..segment }
    } else {
        segment
    }
}

/// The highest time that the segments before `i` hold for `comparison`
/// under `method`, and 0 at least.
pub open spec fn running_max(
    segments: Seq<SegmentView>,
    comparison: Seq<char>,
    method: TimingMethod,
    i: int,
) -> int
    decreases i,
{
    if i <= 0 {
        0
    } else {
        let before = running_max(segments, comparison, method, i - 1);
        match segments[i - 1].comparison(comparison).at(method) {
            Some(time) if time.millis > before => time.millis as int,
            _ => before,
        }
    }
}

/// The segment at `i` after `comparison` was made to not decrease under
/// `method`. Its comparison time is raised to the highest time before it.
/// For the personal best, its best segment time is lowered to the time
/// that the personal best took for the segment.
pub open spec fn with_fixed_comparison(
    segments: Seq<SegmentView>,
    comparison: Seq<char>,
    method: TimingMethod,
    i: int,
) -> SegmentView {
    let segment = segments[i];
    let slot = segment.comparison(comparison);
    match slot.at(method) {
        None => segment,
        Some(time) => {
            let previous = running_max(segments, comparison, method, i);
            let reached = if time.millis < previous {
                previous
            } else {
                time.millis as int
            };
            let duration = TimeSpan { millis: (reached - previous) as i64 };
            let best = segment.best_segment_time;
            SegmentView {
                comparisons: if time.millis < previous {
                    with_comparison(
                        segment.comparisons,
                        comparison,
                        slot.with(method, Some(TimeSpan { millis: previous as i64 })),
                    )
                } else {
                    segment.comparisons
                },
                best_segment_time: if comparison == PERSONAL_BEST@ && (best.at(method) is None
                    || best.at(method)->0.millis > duration.millis) {
                    best.with(method, Some(duration))
                } else {
                    best
                },
                ..segment
            }
        },
    }
}

/// The segments after `comparison` was made to not decrease under `method`.
pub open spec fn fix_comparison(
    segments: Seq<SegmentView>,
    comparison: Seq<char>,
    method: TimingMethod,
) -> Seq<SegmentView> {
    Seq::new(segments.len(), |i: int| with_fixed_comparison(segments, comparison, method, i))
}

/// The segments after each of `comparisons` was made to not decrease under
/// `method`, one after the other.
pub open spec fn fix_comparisons(
    segments: Seq<SegmentView>,
    comparisons: Seq<Seq<char>>,
    method: TimingMethod,
) -> Seq<SegmentView>
    decreases comparisons.len(),
{
    if comparisons.len() == 0 {
        segments
    } else {
        fix_comparison(
            fix_comparisons(segments, comparisons.drop_last(), method),
            comparisons.last(),
            method,
        )
    }
}

/// `segment` with every time of its history under `method` raised to its
/// best segment time, where it has one.
pub open spec fn with_history_floor(segment: SegmentView, method: TimingMethod) -> SegmentView {
    match segment.best_segment_time.at(method) {
        Some(best) => SegmentView { history: raised(segment.history, method, best), ..segment },
        None => segment,
    }
}

/// The segments without negative best segment times and without stale
/// history under `method`.
pub open spec fn clean(segments: Seq<SegmentView>, method: TimingMethod) -> Seq<SegmentView> {
    Seq::new(
        segments.len(),
        |i: int| without_stale_history(without_negative_best(segments[i], method), method),
    )
}

/// The segments with the floor of their best segment times under their
/// histories.
pub open spec fn with_history_floors(segments: Seq<SegmentView>, method: TimingMethod) -> Seq<
    SegmentView,
> {
    Seq::new(segments.len(), |i: int| with_history_floor(segments[i], method))
}

/// The segments after the comparison times and the history were fixed
/// under `method`: negative best segment times are gone, then stale
/// history, then the comparisons are made to not decrease and the best
/// segment times follow the personal best, then the histories are raised
/// to the best segment times.
pub open spec fn fix_method(
    segments: Seq<SegmentView>,
    comparisons: Seq<Seq<char>>,
    method: TimingMethod,
) -> Seq<SegmentView> {
    with_history_floors(fix_comparisons(clean(segments, method), comparisons, method), method)
}

/// The segments without the synthetic duplicates in their histories.
pub open spec fn without_duplicates(segments: Seq<SegmentView>) -> Seq<SegmentView> {
    Seq::new(
        segments.len(),
        |i: int| SegmentView { history: deduplicated(segments[i].history), ..segments[i] },
    )
}

/// Whether the segment at `i` has at `row` an entry without any time.
pub open spec fn is_blank(segments: Seq<SegmentView>, i: int, row: int) -> bool {
    segments[i].history.dom().contains(row) && segments[i].history[row].is_none()
}

/// Whether the segment at `i` has at `row` an entry with a time.
pub open spec fn is_timed(segments: Seq<SegmentView>, i: int, row: int) -> bool {
    segments[i].history.dom().contains(row) && !segments[i].history[row].is_none()
}

/// Whether, in `row`, the segments after the one at `i` have entries
/// without a gap up to one that holds a time.
pub open spec fn anchored(segments: Seq<SegmentView>, i: int, row: int) -> bool
    decreases segments.len() - i,
{
    i >= 0 && i + 1 < segments.len() && (is_timed(segments, i + 1, row) || (is_blank(
        segments,
        i + 1,
        row,
    ) && anchored(segments, i + 1, row)))
}

/// Whether the entry of the segment at `i` in `row` stays when the rows up
/// to `last_row` are pruned: it is in a later row, or holds a time, or is
/// anchored.
pub open spec fn survives_pruning(
    segments: Seq<SegmentView>,
    last_row: int,
    i: int,
    row: int,
) -> bool {
    row > last_row || !segments[i].history[row].is_none() || anchored(segments, i, row)
}

/// The segments without the entries that hold no time and are not
/// anchored, in every row up to `last_row`.
pub open spec fn pruned(segments: Seq<SegmentView>, last_row: int) -> Seq<SegmentView> {
    Seq::new(
        segments.len(),
        |i: int|
            SegmentView {
                history: Map::new(
                    |k: int|
                        segments[i].history.dom().contains(k) && survives_pruning(
                            segments,
                            last_row,
                            i,
                            k,
                        ),
                    |k: int| segments[i].history[k],
                ),
                ..segments[i]
            },
    )
}

/// The last row that pruning goes through: the highest index of the
/// attempts, and 0 where there is none.
pub open spec fn last_row(attempts: Seq<Attempt>) -> int {
    match max_index(attempts) {
        Some(m) => m,
        None => 0,
    }
}

/// The segments after all fixes: the comparison times and the history are
/// fixed under real time, then under game time, then the duplicates are
/// removed, then the rows are pruned.
pub open spec fn fix_splits(
    segments: Seq<SegmentView>,
    comparisons: Seq<Seq<char>>,
    attempts: Seq<Attempt>,
) -> Seq<SegmentView> {
    pruned(
        without_duplicates(
            fix_method(
                fix_method(segments, comparisons, TimingMethod::RealTime),
                comparisons,
                TimingMethod::GameTime,
            ),
        ),
        last_row(attempts),
    )
}

/// Whether `m` is the lowest index of all the histories of `segments`, or 1
/// where every index is above 1 or there is none.
pub open spec fn is_min_history_index(segments: Seq<SegmentView>, m: int) -> bool {
    &&& m <= 1
    &&& m == 1 || exists|i: int|
        0 <= i < segments.len() && #[trigger] segments[i].history.dom().contains(m)
    &&& forall|i: int, k: int|
        0 <= i < segments.len() && #[trigger] segments[i].history.dom().contains(k) ==> m <= k
}

/// The lowest index of all the histories of `segments`, capped at 1.
pub open spec fn min_history_index(segments: Seq<SegmentView>) -> int {
    choose|m: int| is_min_history_index(segments, m)
}

/// A lowest index that was found is the lowest index.
pub proof fn lemma_min_history_index_is(segments: Seq<SegmentView>, m: int)
    requires
        is_min_history_index(segments, m),
    ensures
        min_history_index(segments) == m,
{
    let other = min_history_index(segments);
    if other != 1 {
        let i = choose|i: int|
            0 <= i < segments.len() && #[trigger] segments[i].history.dom().contains(other);
        assert(segments[i].history.dom().contains(other));
    }
    if m != 1 {
        let i = choose|i: int|
            0 <= i < segments.len() && #[trigger] segments[i].history.dom().contains(m);
        assert(segments[i].history.dom().contains(m));
    }
}

/// Removes the history of a segment that has no best segment time under
/// `method`, but for the entries that have no time under `method` either.
pub fn fix_history_from_none_best_segments(segment: &mut Segment, method: TimingMethod)
    requires
        old(segment).wf(),
    ensures
        final(segment).wf(),
        final(segment)@ == without_stale_history(old(segment)@, method),
{
    if segment.best_segment_time().get(method).is_none() {
        let ghost before = segment@.history;
        let skipped = |entry: &(i32, Time)| -> (keep: bool)
            ensures
                keep == (entry.1.at(method) is None),
            {
                let time: Time = entry.1;
                time.get(method).is_none()
            };
        let history = segment.segment_history_mut();
        history.retain(skipped);
        proof {
            assert(history@ =~= skipped_only(before, method));
        }
    }
}

/// Raises the times in the history of a segment to its best segment time
/// under `method`, where it has one.
pub fn fix_history_from_best_segment_times(segment: &mut Segment, method: TimingMethod)
    requires
        old(segment).wf(),
    ensures
        final(segment).wf(),
        final(segment)@ == with_history_floor(old(segment)@, method),
{
    if let Some(best_segment) = segment.best_segment_time().get(method) {
        segment.segment_history_mut().raise_to(method, best_segment);
    }
}

/// Removes the best segment times under `method` that are negative.
fn remove_negative_best_segments(segments: &mut Vec<Segment>, method: TimingMethod)
    requires
        all_wf(old(segments)@),
    ensures
        all_wf(final(segments)@),
        final(segments)@.len() == old(segments)@.len(),
        forall|j: int|
            0 <= j < old(segments)@.len() ==> (#[trigger] final(segments)@[j])@
                == without_negative_best(old(segments)@[j]@, method),
{
    let len = segments.len();
    let mut i: usize = 0;
    while i < len
        invariant
            len == segments@.len(),
            len == old(segments)@.len(),
            all_wf(segments@),
            i <= len,
            forall|j: int|
                0 <= j < i ==> (#[trigger] segments@[j])@ == without_negative_best(
                    old(segments)@[j]@,
                    method,
                ),
            forall|j: int| i <= j < len ==> #[trigger] segments@[j] == old(segments)@[j],
        decreases len - i,
    {
        let best: Time = segments[i].best_segment_time();
        if let Some(span) = best.get(method) {
            if span.is_less_than(TimeSpan::zero()) {
                segments[i].set_best_segment_time(best.with_timing_method(method, None));
            }
        }
        i += 1;
    }
}

/// Removes the stale history under `method` of every segment.
fn remove_stale_histories(segments: &mut Vec<Segment>, method: TimingMethod)
    requires
        all_wf(old(segments)@),
    ensures
        all_wf(final(segments)@),
        final(segments)@.len() == old(segments)@.len(),
        forall|j: int|
            0 <= j < old(segments)@.len() ==> (#[trigger] final(segments)@[j])@
                == without_stale_history(old(segments)@[j]@, method),
{
    let len = segments.len();
    let mut i: usize = 0;
    while i < len
        invariant
            len == segments@.len(),
            len == old(segments)@.len(),
            all_wf(segments@),
            i <= len,
            forall|j: int|
                0 <= j < i ==> (#[trigger] segments@[j])@ == without_stale_history(
                    old(segments)@[j]@,
                    method,
                ),
            forall|j: int| i <= j < len ==> #[trigger] segments@[j] == old(segments)@[j],
        decreases len - i,
    {
        fix_history_from_none_best_segments(&mut segments[i], method);
        i += 1;
    }
}

/// Raises the history under `method` of every segment to its best segment
/// time.
fn raise_histories(segments: &mut Vec<Segment>, method: TimingMethod)
    requires
        all_wf(old(segments)@),
    ensures
        all_wf(final(segments)@),
        final(segments)@.len() == old(segments)@.len(),
        forall|j: int|
            0 <= j < old(segments)@.len() ==> (#[trigger] final(segments)@[j])@
                == with_history_floor(old(segments)@[j]@, method),
{
    let len = segments.len();
    let mut i: usize = 0;
    while i < len
        invariant
            len == segments@.len(),
            len == old(segments)@.len(),
            all_wf(segments@),
            i <= len,
            forall|j: int|
                0 <= j < i ==> (#[trigger] segments@[j])@ == with_history_floor(
                    old(segments)@[j]@,
                    method,
                ),
            forall|j: int| i <= j < len ==> #[trigger] segments@[j] == old(segments)@[j],
        decreases len - i,
    {
        fix_history_from_best_segment_times(&mut segments[i], method);
        i += 1;
    }
}

/// The highest time so far is never negative, and never falls.
pub proof fn lemma_running_max(
    segments: Seq<SegmentView>,
    comparison: Seq<char>,
    method: TimingMethod,
    i: int,
)
    ensures
        0 <= running_max(segments, comparison, method, i) <= i64::MAX,
        running_max(segments, comparison, method, i) <= running_max(
            segments,
            comparison,
            method,
            i + 1,
        ),
    decreases i,
{
    if i > 0 {
        lemma_running_max(segments, comparison, method, i - 1);
    }
}

/// Makes the times of one comparison not decrease under `method`, from
/// the first segment to the last. A time that is below the one before it is
/// raised to it. Where the comparison is the personal best, the best
/// segment time of each segment is lowered to the time that the personal
/// best took for it.
pub fn fix_comparison_times(segments: &mut Vec<Segment>, comparison: &str, method: TimingMethod)
    requires
        all_wf(old(segments)@),
    ensures
        all_wf(final(segments)@),
        final(segments)@.len() == old(segments)@.len(),
        views(final(segments)@) == fix_comparison(views(old(segments)@), comparison@, method),
{
    let ghost start = views(segments@);
    let len = segments.len();
    let is_personal_best: bool = comparison.eq(PERSONAL_BEST);
    let mut previous_time: TimeSpan = TimeSpan::zero();
    let mut i: usize = 0;
    while i < len
        invariant
            len == segments@.len(),
            start == views(old(segments)@),
            start.len() == len,
            all_wf(segments@),
            i <= len,
            is_personal_best == (comparison@ == PERSONAL_BEST@),
            previous_time.millis == running_max(start, comparison@, method, i as int),
            forall|j: int|
                0 <= j < i ==> (#[trigger] segments@[j])@ == with_fixed_comparison(
                    start,
                    comparison@,
                    method,
                    j,
                ),
            forall|j: int| i <= j < len ==> #[trigger] segments@[j] == old(segments)@[j],
        decreases len - i,
    {
        proof {
            lemma_running_max(start, comparison@, method, i as int);
            assert(segments@[i as int]@ == start[i as int]);
        }
        let slot: Time = segments[i].comparison(comparison);
        if let Some(found) = slot.get(method) {
            let mut time: TimeSpan = found;
            // A comparison time never falls from one split to the next.
            if time.is_less_than(previous_time) {
                time = previous_time;
                segments[i].set_comparison(comparison, slot.with_timing_method(method, Some(time)));
            }
            // The personal best cannot have been faster than the best segment.
            if is_personal_best {
                let current_segment: TimeSpan = time.minus(previous_time);
                let best: Time = segments[i].best_segment_time();
                let lower: bool = match best.get(method) {
                    Some(span) => current_segment.is_less_than(span),
                    None => true,
                };
                if lower {
                    segments[i].set_best_segment_time(
                        best.with_timing_method(method, Some(current_segment)),
                    );
                }
            }
            previous_time = time;
        }
        i += 1;
    }
    proof {
        assert(views(segments@) =~= fix_comparison(start, comparison@, method));
    }
}

/// Fixes the comparison times and the history under `method`. First the
/// negative best segment times are removed, then the stale history. Then
/// each of `comparisons` is made to not decrease, in their order, and the
/// best segment times follow the personal best. At last the history of each
/// segment is raised to its best segment time.
pub fn fix_comparison_times_and_history(
    segments: &mut Vec<Segment>,
    comparisons: &Vec<String>,
    method: TimingMethod,
)
    requires
        all_wf(old(segments)@),
    ensures
        all_wf(final(segments)@),
        final(segments)@.len() == old(segments)@.len(),
        views(final(segments)@) == fix_method(views(old(segments)@), names(comparisons@), method),
{
    let ghost start = views(segments@);
    let ghost all = names(comparisons@);
    remove_negative_best_segments(segments, method);
    remove_stale_histories(segments, method);
    proof {
        assert(views(segments@) =~= clean(start, method));
        assert(all.take(0) =~= Seq::empty());
    }
    let mut k: usize = 0;
    while k < comparisons.len()
        invariant
            all_wf(segments@),
            segments@.len() == old(segments)@.len(),
            all == names(comparisons@),
            k <= comparisons@.len(),
            views(segments@) == fix_comparisons(clean(start, method), all.take(k as int), method),
        decreases comparisons@.len() - k,
    {
        fix_comparison_times(segments, comparisons[k].as_str(), method);
        proof {
            assert(all.take(k + 1).drop_last() =~= all.take(k as int));
            assert(all.take(k + 1).last() == comparisons@[k as int]@);
        }
        k += 1;
    }
    proof {
        assert(all.take(k as int) =~= all);
    }
    let ghost compared = views(segments@);
    raise_histories(segments, method);
    proof {
        assert(views(segments@) =~= with_history_floors(compared, method));
    }
}

/// Removes the synthetic duplicates from the history of every segment.
/// Each segment is gone through on its own, and each timing method has its
/// own record of the durations that were met.
pub fn remove_duplicates(segments: &mut Vec<Segment>)
    requires
        all_wf(old(segments)@),
    ensures
        all_wf(final(segments)@),
        final(segments)@.len() == old(segments)@.len(),
        views(final(segments)@) == without_duplicates(views(old(segments)@)),
{
    let len = segments.len();
    let mut i: usize = 0;
    while i < len
        invariant
            len == segments@.len(),
            len == old(segments)@.len(),
            all_wf(segments@),
            i <= len,
            forall|j: int|
                0 <= j < i ==> (#[trigger] segments@[j])@ == (SegmentView {
                    history: deduplicated(old(segments)@[j]@.history),
                    ..old(segments)@[j]@
                }),
            forall|j: int| i <= j < len ==> #[trigger] segments@[j] == old(segments)@[j],
        decreases len - i,
    {
        segments[i].segment_history_mut().remove_duplicates();
        i += 1;
    }
    proof {
        assert(views(segments@) =~= without_duplicates(views(old(segments)@)));
    }
}

/// The lowest index that the segment histories use, capped at 1.
pub fn min_segment_history_index(segments: &Vec<Segment>) -> (index: i32)
    requires
        segments@.len() > 0,
        all_wf(segments@),
    ensures
        index == min_history_index(views(segments@)),
        is_min_history_index(views(segments@), index as int),
{
    let ghost all = views(segments@);
    let mut lowest: i32 = 1;
    let mut i: usize = 0;
    while i < segments.len()
        invariant
            all == views(segments@),
            all_wf(segments@),
            i <= segments@.len(),
            lowest <= 1,
            lowest == 1 || exists|j: int|
                0 <= j < i && #[trigger] all[j].history.dom().contains(lowest as int),
            forall|j: int, k: int|
                0 <= j < i && #[trigger] all[j].history.dom().contains(k) ==> lowest <= k,
        decreases segments@.len() - i,
    {
        let index: i32 = segments[i].segment_history().min_index();
        proof {
            assert(all[i as int] == segments@[i as int]@);
        }
        if index < lowest {
            proof {
                assert(all[i as int].history.dom().contains(index as int));
            }
            lowest = index;
        } else {
            proof {
                if lowest != 1 {
                    let j = choose|j: int|
                        0 <= j < i && #[trigger] all[j].history.dom().contains(lowest as int);
                    assert(all[j].history.dom().contains(lowest as int));
                }
            }
        }
        i += 1;
    }
    proof {
        lemma_min_history_index_is(all, lowest as int);
    }
    lowest
}

/// The segments with `row` pruned: without the entries in `row` that hold
/// no time and are not anchored.
pub open spec fn pruned_row(segments: Seq<SegmentView>, row: int) -> Seq<SegmentView> {
    Seq::new(
        segments.len(),
        |i: int|
            if is_blank(segments, i, row) && !anchored(segments, i, row) {
                SegmentView { history: segments[i].history.remove(row), ..segments[i] }
            } else {
                segments[i]
            },
    )
}

/// The segments with every row below `bound` pruned that is not above
/// `last_row`.
pub open spec fn pruned_below(segments: Seq<SegmentView>, last_row: int, bound: int) -> Seq<
    SegmentView,
> {
    Seq::new(
        segments.len(),
        |i: int|
            SegmentView {
                history: Map::new(
                    |k: int|
                        segments[i].history.dom().contains(k) && (k >= bound || survives_pruning(
                            segments,
                            last_row,
                            i,
                            k,
                        )),
                    |k: int| segments[i].history[k],
                ),
                ..segments[i]
            },
    )
}

/// Whether an entry is anchored depends on its row alone.
pub proof fn lemma_anchored_in_row(a: Seq<SegmentView>, b: Seq<SegmentView>, i: int, row: int)
    requires
        a.len() == b.len(),
        forall|j: int|
            0 <= j < a.len() ==> lookup(#[trigger] a[j].history, row) == lookup(b[j].history, row),
    ensures
        anchored(a, i, row) == anchored(b, i, row),
    decreases a.len() - i,
{
    if i >= 0 && i + 1 < a.len() {
        assert(lookup(a[i + 1].history, row) == lookup(b[i + 1].history, row));
        lemma_anchored_in_row(a, b, i + 1, row);
    }
}

/// Pruning one more row.
proof fn lemma_prune_step(start: Seq<SegmentView>, last_row: int, row: int)
    requires
        row <= last_row,
    ensures
        pruned_row(pruned_below(start, last_row, row), row) == pruned_below(
            start,
            last_row,
            row + 1,
        ),
{
    let current = pruned_below(start, last_row, row);
    let next = pruned_below(start, last_row, row + 1);
    let after = pruned_row(current, row);
    assert forall|j: int| 0 <= j < start.len() implies lookup(
        #[trigger] current[j].history,
        row,
    ) == lookup(start[j].history, row) by {}
    assert forall|i: int| 0 <= i < start.len() implies #[trigger] after[i] == next[i] by {
        lemma_anchored_in_row(current, start, i, row);
        assert(after[i].history =~= next[i].history);
    }
    assert(after =~= next);
}

/// Takes the rows that `cache` holds out of the histories of the segments
/// just before `index`, one row for each segment, and empties `cache`.
pub fn remove_items_from_cache(segments: &mut Vec<Segment>, index: usize, cache: &mut Vec<i32>)
    requires
        all_wf(old(segments)@),
        old(cache)@.len() <= index <= old(segments)@.len(),
    ensures
        all_wf(final(segments)@),
        final(cache)@.len() == 0,
        final(segments)@.len() == old(segments)@.len(),
        forall|j: int|
            0 <= j < index - old(cache)@.len() || index <= j < old(segments)@.len()
                ==> #[trigger] final(segments)@[j] == old(segments)@[j],
        forall|j: int|
            index - old(cache)@.len() <= j < index ==> (#[trigger] final(segments)@[j])@
                == (SegmentView {
                history: old(segments)@[j]@.history.remove(
                    old(cache)@[j - (index - old(cache)@.len())] as int,
                ),
                ..old(segments)@[j]@
            }),
{
    let count = cache.len();
    let first = index - count;
    let mut n: usize = 0;
    while n < count
        invariant
            cache@ == old(cache)@,
            count == cache@.len(),
            first == index - count,
            index <= segments@.len(),
            segments@.len() == old(segments)@.len(),
            all_wf(segments@),
            n <= count,
            forall|j: int|
                0 <= j < first || first + n <= j < segments@.len() ==> #[trigger] segments@[j]
                    == old(segments)@[j],
            forall|j: int|
                first <= j < first + n ==> (#[trigger] segments@[j])@ == (SegmentView {
                    history: old(segments)@[j]@.history.remove(cache@[j - first] as int),
                    ..old(segments)@[j]@
                }),
        decreases count - n,
    {
        let row: i32 = cache[n];
        segments[first + n].segment_history_mut().remove(row);
        n += 1;
    }
    cache.clear();
}

/// Prunes one row: removes the entries in `row` that hold no time and are
/// not anchored.
fn remove_none_values_in_row(segments: &mut Vec<Segment>, row: i32)
    requires
        all_wf(old(segments)@),
    ensures
        all_wf(final(segments)@),
        final(segments)@.len() == old(segments)@.len(),
        views(final(segments)@) == pruned_row(views(old(segments)@), row as int),
{
    let ghost current = views(segments@);
    let len = segments.len();
    let mut cache: Vec<i32> = Vec::new();
    let mut index: usize = 0;
    while index < len
        invariant
            len == segments@.len(),
            current == views(old(segments)@),
            current.len() == len,
            all_wf(segments@),
            index <= len,
            cache@.len() <= index,
            forall|n: int| 0 <= n < cache@.len() ==> cache@[n] == row,
            forall|j: int|
                0 <= j < index - cache@.len() ==> (#[trigger] segments@[j])@ == pruned_row(
                    current,
                    row as int,
                )[j],
            forall|j: int|
                index - cache@.len() <= j < len ==> #[trigger] segments@[j] == old(segments)@[j],
            forall|j: int|
                index - cache@.len() <= j < index ==> #[trigger] is_blank(current, j, row as int),
            forall|j: int|
                index - cache@.len() <= j < index ==> (#[trigger] anchored(current, j, row as int)
                    <==> anchored(current, index - 1, row as int)),
        decreases len - index,
    {
        proof {
            assert(segments@[index as int]@ == current[index as int]);
        }
        let ghost pending = cache@.len();
        let ghost target = pruned_row(current, row as int);
        match segments[index].segment_history().get(row) {
            Some(element) => {
                if element.is_empty() {
                    cache.push(row);
                    proof {
                        assert(is_blank(current, index as int, row as int));
                        assert(!is_timed(current, index as int, row as int));
                        assert forall|j: int| index - pending <= j < index + 1 implies (
                        #[trigger] anchored(current, j, row as int) <==> anchored(
                            current,
                            index as int,
                            row as int,
                        )) by {
                            if j < index {
                                assert(anchored(current, j, row as int) <==> anchored(
                                    current,
                                    index - 1,
                                    row as int,
                                ));
                                assert(anchored(current, index - 1, row as int) <==> anchored(
                                    current,
                                    index as int,
                                    row as int,
                                ));
                            }
                        }
                    }
                } else {
                    cache.clear();
                    proof {
                        assert(is_timed(current, index as int, row as int));
                        assert forall|j: int| 0 <= j < index + 1 implies (#[trigger] segments@[j])@
                            == target[j] by {
                            if index - pending <= j < index {
                                assert(anchored(current, index - 1, row as int));
                                assert(anchored(current, j, row as int));
                                assert(segments@[j]@ == current[j]);
                            } else if j == index {
                                assert(segments@[j]@ == current[j]);
                            }
                        }
                    }
                }
            },
            None => {
                // Entries without a time that no time follows are removed.
                let ghost before = segments@;
                remove_items_from_cache(segments, index, &mut cache);
                proof {
                    assert(!is_timed(current, index as int, row as int));
                    assert(!is_blank(current, index as int, row as int));
                    assert forall|j: int| 0 <= j < index + 1 implies (#[trigger] segments@[j])@
                        == target[j] by {
                        if index - pending <= j < index {
                            assert(!anchored(current, index - 1, row as int));
                            assert(!anchored(current, j, row as int));
                            assert(before[j]@ == current[j]);
                        } else if j == index {
                            assert(segments@[j] == before[j]);
                            assert(segments@[j]@ == current[j]);
                        } else {
                            assert(segments@[j] == before[j]);
                        }
                    }
                }
            },
        }
        index += 1;
    }
    let ghost pending = cache@.len();
    let ghost before = segments@;
    remove_items_from_cache(segments, len, &mut cache);
    proof {
        let target = pruned_row(current, row as int);
        assert forall|j: int| 0 <= j < len implies (#[trigger] segments@[j])@ == target[j] by {
            if len - pending <= j {
                assert(!anchored(current, len - 1, row as int));
                assert(!anchored(current, j, row as int));
                assert(before[j]@ == current[j]);
            } else {
                assert(segments@[j] == before[j]);
            }
        }
        assert(views(segments@) =~= target);
    }
}

/// Prunes the rows of the segment histories, from the lowest index in use
/// up to the highest index of `attempts`, or up to 0 where there is no
/// attempt. In each row the segments are gone through from the first to
/// the last. An entry that holds no time stays only if the entries after it
/// lead without a gap to one that holds a time.
pub fn remove_none_values(segments: &mut Vec<Segment>, attempts: &Vec<Attempt>)
    requires
        old(segments)@.len() > 0,
        all_wf(old(segments)@),
    ensures
        all_wf(final(segments)@),
        final(segments)@.len() == old(segments)@.len(),
        views(final(segments)@) == pruned(views(old(segments)@), last_row(attempts@)),
{
    let ghost start = views(segments@);
    let ghost last = last_row(attempts@);
    let min_index: i32 = min_segment_history_index(segments);
    let max_index: i32 = match max_attempt_index(attempts) {
        Some(m) => m,
        None => 0,
    };
    let mut run_index: i64 = min_index as i64;
    proof {
        assert forall|i: int| 0 <= i < start.len() implies #[trigger] start[i].history
            =~= pruned_below(start, last, min_index as int)[i].history by {}
        assert(start =~= pruned_below(start, last, min_index as int));
    }
    while run_index <= max_index as i64
        invariant
            all_wf(segments@),
            segments@.len() == old(segments)@.len(),
            start.len() > 0,
            last == max_index,
            is_min_history_index(start, min_index as int),
            min_index <= run_index,
            run_index <= max_index + 1 || run_index == min_index,
            views(segments@) == pruned_below(start, last, run_index as int),
        decreases max_index - run_index + 1,
    {
        let row: i32 = run_index as i32;
        remove_none_values_in_row(segments, row);
        proof {
            lemma_prune_step(start, last, row as int);
        }
        run_index += 1;
    }
    proof {
        let reached = pruned_below(start, last, run_index as int);
        let target = pruned(start, last);
        assert forall|i: int| 0 <= i < start.len() implies #[trigger] reached[i] == target[i] by {
            assert forall|k: int| start[i].history.dom().contains(k) && k >= run_index implies k
                > last by {
                assert(min_index <= k);
            }
            assert(reached[i].history =~= target[i].history);
        }
        assert(reached =~= target);
    }
}

} // verus!
