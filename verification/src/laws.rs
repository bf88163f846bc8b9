//! What holds of the segments after they were fixed.

use crate::attempt::Attempt;
use crate::reconcile::{
    anchored, clean, fix_comparison, fix_comparisons, fix_method, fix_splits, is_blank, is_timed,
    last_row, lemma_running_max, pruned, running_max, survives_pruning, with_history_floors,
    without_duplicates, without_negative_best,
};
use crate::run::RunView;
use crate::segment::{lemma_with_comparison, SegmentView, PERSONAL_BEST};
use crate::segment_history::{deduplicated, raise, raised, seen_before, skipped_only, survives_dedup};
use crate::time::{Time, TimeSpan, TimingMethod};
use vstd::prelude::*;

verus! {

/// Whether the times of `comparison` under `method` do not decrease from
/// one segment to a later one, where both have a time.
pub open spec fn comparison_monotone(
    segments: Seq<SegmentView>,
    comparison: Seq<char>,
    method: TimingMethod,
) -> bool {
    forall|i: int, j: int|
        #![trigger segments[i], segments[j]]
        0 <= i < j < segments.len() && segments[i].comparison(comparison).at(method) is Some
            && segments[j].comparison(comparison).at(method) is Some ==> segments[i].comparison(
            comparison,
        ).at(method)->0.millis <= segments[j].comparison(comparison).at(method)->0.millis
}

/// Whether no time under `method` in the history of a segment is below
/// the best segment time of the segment, where it has one.
pub open spec fn history_above_best(segments: Seq<SegmentView>, method: TimingMethod) -> bool {
    forall|i: int, k: int|
        #![trigger segments[i].history.dom().contains(k)]
        0 <= i < segments.len() && segments[i].history.dom().contains(k)
            && segments[i].best_segment_time.at(method) is Some && segments[i].history[k].at(
            method,
        ) is Some ==> segments[i].history[k].at(method)->0.millis
            >= segments[i].best_segment_time.at(method)->0.millis
}

/// Whether no best segment time under `method` is negative.
pub open spec fn best_not_negative(segments: Seq<SegmentView>, method: TimingMethod) -> bool {
    forall|i: int|
        0 <= i < segments.len() && (#[trigger] segments[i]).best_segment_time.at(method) is Some
            ==> segments[i].best_segment_time.at(method)->0.millis >= 0
}

/// Whether a segment without a best segment time under `method` has no
/// time under `method` in its history.
pub open spec fn no_stale_history(segments: Seq<SegmentView>, method: TimingMethod) -> bool {
    forall|i: int, k: int|
        #![trigger segments[i].history.dom().contains(k)]
        0 <= i < segments.len() && segments[i].history.dom().contains(k)
            && segments[i].best_segment_time.at(method) is None ==> segments[i].history[k].at(
            method,
        ) is None
}

/// Whether each time of `comparison` under `method` is at least the
/// highest time before it, and so not negative.
pub open spec fn comparison_settled(
    segments: Seq<SegmentView>,
    comparison: Seq<char>,
    method: TimingMethod,
) -> bool {
    forall|i: int|
        0 <= i < segments.len() && (#[trigger] segments[i]).comparison(comparison).at(method)
            is Some ==> segments[i].comparison(comparison).at(method)->0.millis >= running_max(
            segments,
            comparison,
            method,
            i,
        )
}

/// Whether each segment that has a split time in the personal best under
/// `method` has a best segment time that is not above the time that the
/// personal best took for it: its split time less the highest split time
/// before it.
pub open spec fn best_within_personal_best(
    segments: Seq<SegmentView>,
    method: TimingMethod,
) -> bool {
    forall|i: int|
        0 <= i < segments.len() && (#[trigger] segments[i]).comparison(PERSONAL_BEST@).at(method)
            is Some ==> segments[i].best_segment_time.at(method) is Some
            && segments[i].best_segment_time.at(method)->0.millis <= segments[i].comparison(
            PERSONAL_BEST@,
        ).at(method)->0.millis - running_max(segments, PERSONAL_BEST@, method, i)
}

/// Whether the comparisons and the best segment times are as a fix under
/// `method` leaves them, for the custom comparisons `comparisons`.
pub open spec fn settled(
    segments: Seq<SegmentView>,
    comparisons: Seq<Seq<char>>,
    method: TimingMethod,
) -> bool {
    &&& best_not_negative(segments, method)
    &&& no_stale_history(segments, method)
    &&& forall|c: Seq<char>| #[trigger]
        comparisons.contains(c) ==> comparison_settled(segments, c, method)
    &&& comparisons.contains(PERSONAL_BEST@) ==> best_within_personal_best(segments, method)
}

/// Whether the segments are as a fix under `method` leaves them.
pub open spec fn stable(
    segments: Seq<SegmentView>,
    comparisons: Seq<Seq<char>>,
    method: TimingMethod,
) -> bool {
    settled(segments, comparisons, method) && history_above_best(segments, method)
}

/// Whether `after` holds under `method` what `before` holds, but for
/// entries of the histories that are gone.
pub open spec fn same_under(
    before: Seq<SegmentView>,
    after: Seq<SegmentView>,
    method: TimingMethod,
) -> bool {
    &&& after.len() == before.len()
    &&& forall|i: int|
        0 <= i < before.len() ==> (#[trigger] after[i]).best_segment_time.at(method)
            == before[i].best_segment_time.at(method)
    &&& forall|i: int, c: Seq<char>|
        0 <= i < before.len() ==> (#[trigger] after[i].comparison(c)).at(method)
            == before[i].comparison(c).at(method)
    &&& forall|i: int, k: int|
        0 <= i < before.len() && #[trigger] after[i].history.dom().contains(k)
            ==> before[i].history.dom().contains(k) && after[i].history[k].at(method)
            == before[i].history[k].at(method)
}

/// The highest time so far depends on the times alone.
proof fn lemma_running_max_same(
    a: Seq<SegmentView>,
    b: Seq<SegmentView>,
    comparison: Seq<char>,
    method: TimingMethod,
    i: int,
)
    requires
        i <= a.len(),
        i <= b.len(),
        forall|j: int|
            0 <= j < i ==> (#[trigger] b[j].comparison(comparison)).at(method) == a[j].comparison(
                comparison,
            ).at(method),
    ensures
        running_max(b, comparison, method, i) == running_max(a, comparison, method, i),
    decreases i,
{
    if i > 0 {
        lemma_running_max_same(a, b, comparison, method, i - 1);
        assert(b[i - 1].comparison(comparison).at(method) == a[i - 1].comparison(comparison).at(
            method,
        ));
    }
}

/// The highest time so far never falls.
proof fn lemma_running_max_grows(
    segments: Seq<SegmentView>,
    comparison: Seq<char>,
    method: TimingMethod,
    i: int,
    j: int,
)
    requires
        i <= j,
    ensures
        running_max(segments, comparison, method, i) <= running_max(
            segments,
            comparison,
            method,
            j,
        ),
    decreases j - i,
{
    if i < j {
        lemma_running_max_grows(segments, comparison, method, i, j - 1);
        lemma_running_max(segments, comparison, method, j - 1);
    }
}

/// What is stable stays stable where the segments hold the same under the
/// method.
proof fn lemma_stable_transfers(
    before: Seq<SegmentView>,
    after: Seq<SegmentView>,
    comparisons: Seq<Seq<char>>,
    method: TimingMethod,
)
    requires
        stable(before, comparisons, method),
        same_under(before, after, method),
    ensures
        stable(after, comparisons, method),
{
    assert forall|i: int|
        0 <= i < after.len() && (#[trigger] after[i]).best_segment_time.at(method)
            is Some implies after[i].best_segment_time.at(method)->0.millis >= 0 by {
        assert(before[i].best_segment_time.at(method) is Some);
    }
    assert forall|i: int, k: int|
        #![trigger after[i].history.dom().contains(k)]
        0 <= i < after.len() && after[i].history.dom().contains(k)
            && after[i].best_segment_time.at(method) is None implies after[i].history[k].at(
        method,
    ) is None by {
        assert(before[i].history.dom().contains(k));
        assert(before[i].best_segment_time.at(method) is None);
    }
    assert forall|i: int, k: int|
        #![trigger after[i].history.dom().contains(k)]
        0 <= i < after.len() && after[i].history.dom().contains(k)
            && after[i].best_segment_time.at(method) is Some && after[i].history[k].at(method)
            is Some implies after[i].history[k].at(method)->0.millis
        >= after[i].best_segment_time.at(method)->0.millis by {
        assert(before[i].history.dom().contains(k));
        assert(before[i].best_segment_time.at(method) is Some);
    }
    assert forall|c: Seq<char>| #[trigger] comparisons.contains(c) implies comparison_settled(
        after,
        c,
        method,
    ) by {
        assert(comparison_settled(before, c, method));
        assert forall|i: int|
            0 <= i < after.len() && (#[trigger] after[i]).comparison(c).at(method)
                is Some implies after[i].comparison(c).at(method)->0.millis >= running_max(
            after,
            c,
            method,
            i,
        ) by {
            lemma_running_max_same(before, after, c, method, i);
            assert(after[i].comparison(c).at(method) == before[i].comparison(c).at(method));
            assert(before[i].comparison(c).at(method) is Some);
        }
    }
    if comparisons.contains(PERSONAL_BEST@) {
        assert forall|i: int|
            0 <= i < after.len() && (#[trigger] after[i]).comparison(PERSONAL_BEST@).at(method)
                is Some implies after[i].best_segment_time.at(method) is Some
            && after[i].best_segment_time.at(method)->0.millis <= after[i].comparison(
            PERSONAL_BEST@,
        ).at(method)->0.millis - running_max(after, PERSONAL_BEST@, method, i) by {
            lemma_running_max_same(before, after, PERSONAL_BEST@, method, i);
            assert(after[i].comparison(PERSONAL_BEST@).at(method) == before[i].comparison(
                PERSONAL_BEST@,
            ).at(method));
            assert(before[i].comparison(PERSONAL_BEST@).at(method) is Some);
        }
    }
}

/// What holds the same as what holds the same holds the same.
proof fn lemma_same_under_chain(
    a: Seq<SegmentView>,
    b: Seq<SegmentView>,
    c: Seq<SegmentView>,
    method: TimingMethod,
)
    requires
        same_under(a, b, method),
        same_under(b, c, method),
    ensures
        same_under(a, c, method),
{
    assert forall|i: int| 0 <= i < a.len() implies (#[trigger] c[i]).best_segment_time.at(method)
        == a[i].best_segment_time.at(method) by {
        assert(b[i].best_segment_time.at(method) == a[i].best_segment_time.at(method));
    }
    assert forall|i: int, n: Seq<char>| 0 <= i < a.len() implies (#[trigger] c[i].comparison(
        n,
    )).at(method) == a[i].comparison(n).at(method) by {
        assert(b[i].comparison(n).at(method) == a[i].comparison(n).at(method));
    }
    assert forall|i: int, k: int|
        0 <= i < a.len() && #[trigger] c[i].history.dom().contains(k) implies a[i].history.dom().contains(
        k,
    ) && c[i].history[k].at(method) == a[i].history[k].at(method) by {
        assert(b[i].history.dom().contains(k));
    }
}

/// Making one comparison not decrease under one method leaves what the
/// segments hold under the other method.
proof fn lemma_fix_comparison_frame(
    segments: Seq<SegmentView>,
    comparison: Seq<char>,
    fixed: TimingMethod,
    method: TimingMethod,
)
    requires
        fixed != method,
    ensures
        same_under(segments, fix_comparison(segments, comparison, fixed), method),
{
    let after = fix_comparison(segments, comparison, fixed);
    assert forall|i: int, c: Seq<char>| 0 <= i < segments.len() implies (
    #[trigger] after[i].comparison(c)).at(method) == segments[i].comparison(c).at(method) by {
        let segment = segments[i];
        let slot = segment.comparison(comparison);
        if slot.at(fixed) is Some {
            let previous = running_max(segments, comparison, fixed, i);
            lemma_with_comparison(
                segment.comparisons,
                comparison,
                slot.with(fixed, Some(TimeSpan { millis: previous as i64 })),
                c,
            );
        }
    }
}

/// Making comparisons not decrease under one method leaves what the
/// segments hold under the other method.
proof fn lemma_fix_comparisons_frame(
    segments: Seq<SegmentView>,
    comparisons: Seq<Seq<char>>,
    fixed: TimingMethod,
    method: TimingMethod,
)
    requires
        fixed != method,
    ensures
        same_under(segments, fix_comparisons(segments, comparisons, fixed), method),
    decreases comparisons.len(),
{
    if comparisons.len() > 0 {
        let before = fix_comparisons(segments, comparisons.drop_last(), fixed);
        lemma_fix_comparisons_frame(segments, comparisons.drop_last(), fixed, method);
        lemma_fix_comparison_frame(before, comparisons.last(), fixed, method);
        lemma_same_under_chain(
            segments,
            before,
            fix_comparison(before, comparisons.last(), fixed),
            method,
        );
    }
}

/// A fix under one method leaves what the segments hold under the other
/// method, but for entries of the histories that are gone.
proof fn lemma_fix_method_frame(
    segments: Seq<SegmentView>,
    comparisons: Seq<Seq<char>>,
    fixed: TimingMethod,
    method: TimingMethod,
)
    requires
        fixed != method,
    ensures
        same_under(segments, fix_method(segments, comparisons, fixed), method),
{
    let cleaned = clean(segments, fixed);
    let compared = fix_comparisons(cleaned, comparisons, fixed);
    let floored = with_history_floors(compared, fixed);
    assert(same_under(segments, cleaned, method));
    lemma_fix_comparisons_frame(cleaned, comparisons, fixed, method);
    lemma_same_under_chain(segments, cleaned, compared, method);
    assert(same_under(compared, floored, method));
    lemma_same_under_chain(segments, compared, floored, method);
}

/// Without their duplicates the segments hold what they held, but for the
/// entries that are gone.
proof fn lemma_without_duplicates_frame(segments: Seq<SegmentView>, method: TimingMethod)
    ensures
        same_under(segments, without_duplicates(segments), method),
{
}

/// After pruning the segments hold what they held, but for the entries
/// that are gone.
proof fn lemma_pruned_frame(segments: Seq<SegmentView>, last_row: int, method: TimingMethod)
    ensures
        same_under(segments, pruned(segments, last_row), method),
{
}

/// The time that a segment holds for a comparison after one comparison
/// was made to not decrease: the time of that comparison is raised to the
/// highest time before it, and the time of every other comparison is what
/// it was.
proof fn lemma_fix_comparison_slot(
    segments: Seq<SegmentView>,
    comparison: Seq<char>,
    method: TimingMethod,
    i: int,
    other: Seq<char>,
)
    requires
        0 <= i < segments.len(),
    ensures
        fix_comparison(segments, comparison, method)[i].comparison(other).at(method) == if other
            == comparison {
            match segments[i].comparison(comparison).at(method) {
                Some(time) => Some(
                    TimeSpan {
                        millis: if time.millis < running_max(segments, comparison, method, i) {
                            running_max(segments, comparison, method, i) as i64
                        } else {
                            time.millis
                        },
                    },
                ),
                None => None,
            }
        } else {
            segments[i].comparison(other).at(method)
        },
{
    let segment = segments[i];
    let slot = segment.comparison(comparison);
    lemma_running_max(segments, comparison, method, i);
    if slot.at(method) is Some {
        let previous = running_max(segments, comparison, method, i);
        lemma_with_comparison(
            segment.comparisons,
            comparison,
            slot.with(method, Some(TimeSpan { millis: previous as i64 })),
            other,
        );
    }
}

/// The highest times so far are the same after one comparison was made to
/// not decrease.
proof fn lemma_fix_comparison_running_max(
    segments: Seq<SegmentView>,
    comparison: Seq<char>,
    method: TimingMethod,
    other: Seq<char>,
    i: int,
)
    requires
        i <= segments.len(),
    ensures
        running_max(fix_comparison(segments, comparison, method), other, method, i)
            == running_max(segments, other, method, i),
    decreases i,
{
    if i > 0 {
        lemma_fix_comparison_running_max(segments, comparison, method, other, i - 1);
        lemma_fix_comparison_slot(segments, comparison, method, i - 1, other);
        lemma_running_max(segments, comparison, method, i - 1);
    }
}

/// After one more comparison was made to not decrease, the segments are
/// settled for that comparison too.
proof fn lemma_settle_step(
    segments: Seq<SegmentView>,
    comparisons: Seq<Seq<char>>,
    comparison: Seq<char>,
    method: TimingMethod,
)
    requires
        settled(segments, comparisons, method),
    ensures
        settled(
            fix_comparison(segments, comparison, method),
            comparisons.push(comparison),
            method,
        ),
{
    let after = fix_comparison(segments, comparison, method);
    let all = comparisons.push(comparison);
    assert forall|i: int|
        0 <= i < after.len() && (#[trigger] after[i]).best_segment_time.at(method)
            is Some implies after[i].best_segment_time.at(method)->0.millis >= 0 by {
        lemma_running_max(segments, comparison, method, i);
        assert(segments[i].best_segment_time.at(method) is Some
            ==> segments[i].best_segment_time.at(method)->0.millis >= 0);
    }
    assert forall|i: int, k: int|
        #![trigger after[i].history.dom().contains(k)]
        0 <= i < after.len() && after[i].history.dom().contains(k)
            && after[i].best_segment_time.at(method) is None implies after[i].history[k].at(
        method,
    ) is None by {
        assert(segments[i].history.dom().contains(k));
        assert(segments[i].best_segment_time.at(method) is None);
    }
    assert forall|c: Seq<char>| #[trigger] all.contains(c) implies comparison_settled(
        after,
        c,
        method,
    ) by {
        if c != comparison {
            let at = choose|at: int| 0 <= at < all.len() && all[at] == c;
            assert(comparisons[at] == c);
            assert(comparisons.contains(c));
            assert(comparison_settled(segments, c, method));
        }
        assert forall|i: int|
            0 <= i < after.len() && (#[trigger] after[i]).comparison(c).at(method)
                is Some implies after[i].comparison(c).at(method)->0.millis >= running_max(
            after,
            c,
            method,
            i,
        ) by {
            lemma_fix_comparison_slot(segments, comparison, method, i, c);
            lemma_fix_comparison_running_max(segments, comparison, method, c, i);
            lemma_running_max(segments, comparison, method, i);
            if c != comparison {
                assert(segments[i].comparison(c).at(method) is Some);
            }
        }
    }
    if all.contains(PERSONAL_BEST@) {
        if comparison != PERSONAL_BEST@ {
            let at = choose|at: int| 0 <= at < all.len() && all[at] == PERSONAL_BEST@;
            assert(comparisons[at] == PERSONAL_BEST@);
            assert(comparisons.contains(PERSONAL_BEST@));
        }
        assert forall|i: int|
            0 <= i < after.len() && (#[trigger] after[i]).comparison(PERSONAL_BEST@).at(method)
                is Some implies after[i].best_segment_time.at(method) is Some
            && after[i].best_segment_time.at(method)->0.millis <= after[i].comparison(
            PERSONAL_BEST@,
        ).at(method)->0.millis - running_max(after, PERSONAL_BEST@, method, i) by {
            lemma_fix_comparison_slot(segments, comparison, method, i, PERSONAL_BEST@);
            lemma_fix_comparison_running_max(segments, comparison, method, PERSONAL_BEST@, i);
            lemma_running_max(segments, comparison, method, i);
            if comparison != PERSONAL_BEST@ {
                assert(segments[i].comparison(PERSONAL_BEST@).at(method) is Some);
            }
        }
    }
}

/// After the comparisons were made to not decrease, the segments are
/// settled for them.
proof fn lemma_settle_all(
    segments: Seq<SegmentView>,
    comparisons: Seq<Seq<char>>,
    method: TimingMethod,
)
    requires
        best_not_negative(segments, method),
        no_stale_history(segments, method),
    ensures
        settled(fix_comparisons(segments, comparisons, method), comparisons, method),
    decreases comparisons.len(),
{
    if comparisons.len() == 0 {
        assert forall|c: Seq<char>| #[trigger] comparisons.contains(c) implies comparison_settled(
            segments,
            c,
            method,
        ) by {}
    } else {
        let front = comparisons.drop_last();
        lemma_settle_all(segments, front, method);
        lemma_settle_step(fix_comparisons(segments, front, method), front, comparisons.last(), method);
        assert(front.push(comparisons.last()) =~= comparisons);
    }
}

/// With the floors under the histories, segments that are settled are
/// stable.
proof fn lemma_floors_stable(
    segments: Seq<SegmentView>,
    comparisons: Seq<Seq<char>>,
    method: TimingMethod,
)
    requires
        settled(segments, comparisons, method),
    ensures
        stable(with_history_floors(segments, method), comparisons, method),
{
    let after = with_history_floors(segments, method);
    assert forall|i: int|
        0 <= i < after.len() && (#[trigger] after[i]).best_segment_time.at(method)
            is Some implies after[i].best_segment_time.at(method)->0.millis >= 0 by {
        assert(segments[i].best_segment_time.at(method) is Some);
    }
    assert forall|i: int, k: int|
        #![trigger after[i].history.dom().contains(k)]
        0 <= i < after.len() && after[i].history.dom().contains(k)
            && after[i].best_segment_time.at(method) is None implies after[i].history[k].at(
        method,
    ) is None by {
        assert(segments[i].history.dom().contains(k));
    }
    assert forall|c: Seq<char>| #[trigger] comparisons.contains(c) implies comparison_settled(
        after,
        c,
        method,
    ) by {
        assert(comparison_settled(segments, c, method));
        assert forall|i: int|
            0 <= i < after.len() && (#[trigger] after[i]).comparison(c).at(method)
                is Some implies after[i].comparison(c).at(method)->0.millis >= running_max(
            after,
            c,
            method,
            i,
        ) by {
            lemma_running_max_same(segments, after, c, method, i);
            assert(segments[i].comparison(c).at(method) is Some);
        }
    }
    if comparisons.contains(PERSONAL_BEST@) {
        assert forall|i: int|
            0 <= i < after.len() && (#[trigger] after[i]).comparison(PERSONAL_BEST@).at(method)
                is Some implies after[i].best_segment_time.at(method) is Some
            && after[i].best_segment_time.at(method)->0.millis <= after[i].comparison(
            PERSONAL_BEST@,
        ).at(method)->0.millis - running_max(after, PERSONAL_BEST@, method, i) by {
            lemma_running_max_same(segments, after, PERSONAL_BEST@, method, i);
            assert(segments[i].comparison(PERSONAL_BEST@).at(method) is Some);
        }
    }
    assert forall|i: int, k: int|
        #![trigger after[i].history.dom().contains(k)]
        0 <= i < after.len() && after[i].history.dom().contains(k)
            && after[i].best_segment_time.at(method) is Some && after[i].history[k].at(method)
            is Some implies after[i].history[k].at(method)->0.millis
        >= after[i].best_segment_time.at(method)->0.millis by {
        assert(segments[i].history.dom().contains(k));
    }
}

/// After a fix under a method the segments are stable under it.
pub proof fn lemma_fix_method_stable(
    segments: Seq<SegmentView>,
    comparisons: Seq<Seq<char>>,
    method: TimingMethod,
)
    ensures
        stable(fix_method(segments, comparisons, method), comparisons, method),
{
    let cleaned = clean(segments, method);
    assert(best_not_negative(cleaned, method));
    assert(no_stale_history(cleaned, method));
    lemma_settle_all(cleaned, comparisons, method);
    lemma_floors_stable(fix_comparisons(cleaned, comparisons, method), comparisons, method);
}

/// Making a comparison not decrease changes nothing where the segments
/// are settled for it.
proof fn lemma_fix_comparison_keeps(
    segments: Seq<SegmentView>,
    comparisons: Seq<Seq<char>>,
    comparison: Seq<char>,
    method: TimingMethod,
)
    requires
        settled(segments, comparisons, method),
        comparisons.contains(comparison),
    ensures
        fix_comparison(segments, comparison, method) == segments,
{
    let after = fix_comparison(segments, comparison, method);
    assert(comparison_settled(segments, comparison, method));
    assert forall|i: int| 0 <= i < segments.len() implies #[trigger] after[i] == segments[i] by {
        lemma_running_max(segments, comparison, method, i);
        let segment = segments[i];
        if segment.comparison(comparison).at(method) is Some {
            assert(segment.comparison(comparison).at(method)->0.millis >= running_max(
                segments,
                comparison,
                method,
                i,
            ));
            if comparison == PERSONAL_BEST@ {
                assert(best_within_personal_best(segments, method));
            }
        }
    }
    assert(after =~= segments);
}

/// Making comparisons not decrease changes nothing where the segments are
/// settled for them.
proof fn lemma_fix_comparisons_keep(
    segments: Seq<SegmentView>,
    comparisons: Seq<Seq<char>>,
    fixed: Seq<Seq<char>>,
    method: TimingMethod,
)
    requires
        settled(segments, comparisons, method),
        forall|i: int| 0 <= i < fixed.len() ==> comparisons.contains(#[trigger] fixed[i]),
    ensures
        fix_comparisons(segments, fixed, method) == segments,
    decreases fixed.len(),
{
    if fixed.len() > 0 {
        let front = fixed.drop_last();
        assert forall|i: int| 0 <= i < front.len() implies comparisons.contains(
            #[trigger] front[i],
        ) by {
            assert(front[i] == fixed[i]);
        }
        lemma_fix_comparisons_keep(segments, comparisons, front, method);
        assert(comparisons.contains(fixed[fixed.len() - 1]));
        lemma_fix_comparison_keeps(segments, comparisons, fixed.last(), method);
    }
}

/// A fix under a method changes nothing where the segments are stable
/// under it.
pub proof fn lemma_fix_method_keeps(
    segments: Seq<SegmentView>,
    comparisons: Seq<Seq<char>>,
    method: TimingMethod,
)
    requires
        stable(segments, comparisons, method),
    ensures
        fix_method(segments, comparisons, method) == segments,
{
    let cleaned = clean(segments, method);
    assert forall|i: int| 0 <= i < segments.len() implies #[trigger] cleaned[i]
        == segments[i] by {
        let segment = segments[i];
        assert(without_negative_best(segment, method) == segment);
        if segment.best_segment_time.at(method) is None {
            assert forall|k: int| segment.history.dom().contains(k) implies segment.history[k].at(
                method,
            ) is None by {
                assert(segments[i].history.dom().contains(k));
            }
            assert(skipped_only(segment.history, method) =~= segment.history);
        }
    }
    assert(cleaned =~= segments);
    assert forall|i: int| 0 <= i < comparisons.len() implies comparisons.contains(
        #[trigger] comparisons[i],
    ) by {}
    lemma_fix_comparisons_keep(segments, comparisons, comparisons, method);
    let floored = with_history_floors(segments, method);
    assert forall|i: int| 0 <= i < segments.len() implies #[trigger] floored[i]
        == segments[i] by {
        let segment = segments[i];
        if segment.best_segment_time.at(method) is Some {
            let best = segment.best_segment_time.at(method)->0;
            assert forall|k: int| segment.history.dom().contains(k) implies raise(
                segment.history[k],
                method,
                best,
            ) == segment.history[k] by {
                assert(segments[i].history.dom().contains(k));
            }
            assert(raised(segment.history, method, best) =~= segment.history);
        }
    }
    assert(floored =~= segments);
}

/// Whether no history holds a synthetic duplicate.
pub open spec fn no_duplicates(segments: Seq<SegmentView>) -> bool {
    forall|i: int, k: int|
        #![trigger segments[i].history.dom().contains(k)]
        0 <= i < segments.len() && segments[i].history.dom().contains(k) ==> survives_dedup(
            segments[i].history,
            k,
        )
}

/// An entry that is no duplicate in a history is none in a part of that
/// history.
proof fn lemma_survives_in_part(whole: Map<int, Time>, part: Map<int, Time>, index: int)
    requires
        forall|k: int| #[trigger]
            part.dom().contains(k) ==> whole.dom().contains(k) && part[k] == whole[k],
        part.dom().contains(index),
        survives_dedup(whole, index),
    ensures
        survives_dedup(part, index),
{
    let time = whole[index];
    assert(part[index] == time);
    if time.real_time is Some && seen_before(
        part,
        index,
        TimingMethod::RealTime,
        time.real_time->0,
    ) {
        let j = choose|j: int|
            #![trigger part.dom().contains(j)]
            part.dom().contains(j) && (j >= 1 || j < index) && part[j].at(TimingMethod::RealTime)
                == Some(time.real_time->0);
        assert(whole.dom().contains(j));
    }
    if time.game_time is Some && seen_before(
        part,
        index,
        TimingMethod::GameTime,
        time.game_time->0,
    ) {
        let j = choose|j: int|
            #![trigger part.dom().contains(j)]
            part.dom().contains(j) && (j >= 1 || j < index) && part[j].at(TimingMethod::GameTime)
                == Some(time.game_time->0);
        assert(whole.dom().contains(j));
    }
}

/// Without their duplicates the histories hold no duplicate.
proof fn lemma_without_duplicates_has_none(segments: Seq<SegmentView>)
    ensures
        no_duplicates(without_duplicates(segments)),
{
    let after = without_duplicates(segments);
    assert forall|i: int, k: int|
        #![trigger after[i].history.dom().contains(k)]
        0 <= i < after.len() && after[i].history.dom().contains(k) implies survives_dedup(
        after[i].history,
        k,
    ) by {
        lemma_survives_in_part(segments[i].history, after[i].history, k);
    }
}

/// Pruning brings no duplicate into the histories.
proof fn lemma_pruned_has_no_duplicates(segments: Seq<SegmentView>, last_row: int)
    requires
        no_duplicates(segments),
    ensures
        no_duplicates(pruned(segments, last_row)),
{
    let after = pruned(segments, last_row);
    assert forall|i: int, k: int|
        #![trigger after[i].history.dom().contains(k)]
        0 <= i < after.len() && after[i].history.dom().contains(k) implies survives_dedup(
        after[i].history,
        k,
    ) by {
        assert(segments[i].history.dom().contains(k));
        lemma_survives_in_part(segments[i].history, after[i].history, k);
    }
}

/// Removing the duplicates changes nothing where there is none.
proof fn lemma_without_duplicates_keeps(segments: Seq<SegmentView>)
    requires
        no_duplicates(segments),
    ensures
        without_duplicates(segments) == segments,
{
    let after = without_duplicates(segments);
    assert forall|i: int| 0 <= i < segments.len() implies #[trigger] after[i] == segments[i] by {
        assert forall|k: int| segments[i].history.dom().contains(k) implies survives_dedup(
            segments[i].history,
            k,
        ) by {}
        assert(deduplicated(segments[i].history) =~= segments[i].history);
    }
    assert(after =~= segments);
}

/// No entry of an actual run is removed as a duplicate, and no entry that
/// holds a time is pruned.
pub proof fn lemma_entries_stay(segments: Seq<SegmentView>, last_row: int, i: int, index: int)
    requires
        0 <= i < segments.len(),
        segments[i].history.dom().contains(index),
    ensures
        index >= 1 ==> without_duplicates(segments)[i].history.contains_pair(
            index,
            segments[i].history[index],
        ),
        !segments[i].history[index].is_none() ==> pruned(segments, last_row)[i].history.contains_pair(
            index,
            segments[i].history[index],
        ),
{
}

/// An entry that is anchored is anchored after pruning.
proof fn lemma_anchored_after_pruning(
    segments: Seq<SegmentView>,
    last_row: int,
    i: int,
    row: int,
)
    requires
        anchored(segments, i, row),
    ensures
        anchored(pruned(segments, last_row), i, row),
    decreases segments.len() - i,
{
    let after = pruned(segments, last_row);
    if is_timed(segments, i + 1, row) {
        assert(is_timed(after, i + 1, row));
    } else {
        lemma_anchored_after_pruning(segments, last_row, i + 1, row);
        assert(is_blank(after, i + 1, row));
    }
}

/// Pruning changes nothing after pruning.
proof fn lemma_pruned_twice(segments: Seq<SegmentView>, last_row: int)
    ensures
        pruned(pruned(segments, last_row), last_row) == pruned(segments, last_row),
{
    let once = pruned(segments, last_row);
    let twice = pruned(once, last_row);
    assert forall|i: int| 0 <= i < segments.len() implies #[trigger] twice[i] == once[i] by {
        assert forall|k: int| once[i].history.dom().contains(k) implies survives_pruning(
            once,
            last_row,
            i,
            k,
        ) by {
            if anchored(segments, i, k) {
                lemma_anchored_after_pruning(segments, last_row, i, k);
            }
        }
        assert(twice[i].history =~= once[i].history);
    }
    assert(twice =~= once);
}

/// To make comparisons not decrease leaves as many segments as there
/// were.
proof fn lemma_fix_comparisons_len(
    segments: Seq<SegmentView>,
    comparisons: Seq<Seq<char>>,
    method: TimingMethod,
)
    ensures
        fix_comparisons(segments, comparisons, method).len() == segments.len(),
    decreases comparisons.len(),
{
    if comparisons.len() > 0 {
        lemma_fix_comparisons_len(segments, comparisons.drop_last(), method);
    }
}

/// The fixes leave as many segments as there were.
pub proof fn lemma_fix_splits_len(
    segments: Seq<SegmentView>,
    comparisons: Seq<Seq<char>>,
    attempts: Seq<Attempt>,
)
    ensures
        fix_splits(segments, comparisons, attempts).len() == segments.len(),
{
    let first = fix_method(segments, comparisons, TimingMethod::RealTime);
    lemma_fix_comparisons_len(clean(segments, TimingMethod::RealTime), comparisons, TimingMethod::RealTime);
    lemma_fix_comparisons_len(clean(first, TimingMethod::GameTime), comparisons, TimingMethod::GameTime);
}

/// After all fixes the segments are stable under each method, and their
/// histories hold no duplicate.
pub proof fn lemma_fix_splits_stable(
    segments: Seq<SegmentView>,
    comparisons: Seq<Seq<char>>,
    attempts: Seq<Attempt>,
    method: TimingMethod,
)
    ensures
        stable(fix_splits(segments, comparisons, attempts), comparisons, method),
        no_duplicates(fix_splits(segments, comparisons, attempts)),
{
    let first = fix_method(segments, comparisons, TimingMethod::RealTime);
    let second = fix_method(first, comparisons, TimingMethod::GameTime);
    let unique = without_duplicates(second);
    let last = last_row(attempts);
    let done = pruned(unique, last);
    lemma_fix_method_stable(segments, comparisons, TimingMethod::RealTime);
    lemma_fix_method_stable(first, comparisons, TimingMethod::GameTime);
    lemma_fix_method_frame(first, comparisons, TimingMethod::GameTime, TimingMethod::RealTime);
    lemma_stable_transfers(first, second, comparisons, TimingMethod::RealTime);
    lemma_without_duplicates_frame(second, method);
    lemma_stable_transfers(second, unique, comparisons, method);
    lemma_pruned_frame(unique, last, method);
    lemma_stable_transfers(unique, done, comparisons, method);
    lemma_without_duplicates_has_none(second);
    lemma_pruned_has_no_duplicates(unique, last);
}

/// Idempotence: to fix the segments that were fixed changes nothing.
pub proof fn lemma_fix_splits_idempotent(
    segments: Seq<SegmentView>,
    comparisons: Seq<Seq<char>>,
    attempts: Seq<Attempt>,
)
    ensures
        fix_splits(fix_splits(segments, comparisons, attempts), comparisons, attempts)
            == fix_splits(segments, comparisons, attempts),
{
    let done = fix_splits(segments, comparisons, attempts);
    lemma_fix_splits_stable(segments, comparisons, attempts, TimingMethod::RealTime);
    lemma_fix_splits_stable(segments, comparisons, attempts, TimingMethod::GameTime);
    lemma_fix_method_keeps(done, comparisons, TimingMethod::RealTime);
    lemma_fix_method_keeps(done, comparisons, TimingMethod::GameTime);
    lemma_without_duplicates_keeps(done);
    let first = fix_method(segments, comparisons, TimingMethod::RealTime);
    let second = fix_method(first, comparisons, TimingMethod::GameTime);
    lemma_pruned_twice(without_duplicates(second), last_row(attempts));
}

/// Monotonicity: after all fixes the times of each custom comparison do
/// not decrease from one segment to a later one, under either method.
pub proof fn lemma_fix_splits_monotone(
    segments: Seq<SegmentView>,
    comparisons: Seq<Seq<char>>,
    attempts: Seq<Attempt>,
    comparison: Seq<char>,
    method: TimingMethod,
)
    requires
        comparisons.contains(comparison),
    ensures
        comparison_monotone(fix_splits(segments, comparisons, attempts), comparison, method),
{
    let done = fix_splits(segments, comparisons, attempts);
    lemma_fix_splits_stable(segments, comparisons, attempts, method);
    assert(comparison_settled(done, comparison, method));
    assert forall|i: int, j: int|
        #![trigger done[i], done[j]]
        0 <= i < j < done.len() && done[i].comparison(comparison).at(method) is Some
            && done[j].comparison(comparison).at(method) is Some implies done[i].comparison(
        comparison,
    ).at(method)->0.millis <= done[j].comparison(comparison).at(method)->0.millis by {
        lemma_running_max_grows(done, comparison, method, i + 1, j);
        assert(running_max(done, comparison, method, i + 1) >= done[i].comparison(comparison).at(
            method,
        )->0.millis);
    }
}

/// Best-segment floor: after all fixes no time in the history of a segment
/// is below the best segment time of the segment, under either method. No
/// best segment time is negative.
pub proof fn lemma_fix_splits_floor(
    segments: Seq<SegmentView>,
    comparisons: Seq<Seq<char>>,
    attempts: Seq<Attempt>,
    method: TimingMethod,
)
    ensures
        history_above_best(fix_splits(segments, comparisons, attempts), method),
        best_not_negative(fix_splits(segments, comparisons, attempts), method),
{
    lemma_fix_splits_stable(segments, comparisons, attempts, method);
}

/// Whether the best segment time of each segment is not above the
/// difference of its split time in the personal best to that of the segment
/// before it, where both have one.
pub open spec fn best_within_splits(segments: Seq<SegmentView>, method: TimingMethod) -> bool {
    forall|i: int|
        1 <= i < segments.len() && (#[trigger] segments[i]).comparison(PERSONAL_BEST@).at(method)
            is Some && segments[i - 1].comparison(PERSONAL_BEST@).at(method) is Some
            ==> segments[i].best_segment_time.at(method) is Some
            && segments[i].best_segment_time.at(method)->0.millis <= segments[i].comparison(
            PERSONAL_BEST@,
        ).at(method)->0.millis - segments[i - 1].comparison(PERSONAL_BEST@).at(method)->0.millis
}

/// Consistency with the personal best: where the personal best is among
/// the custom comparisons, after all fixes the best segment time of a
/// segment is not above the time that the personal best took for it.
pub proof fn lemma_fix_splits_personal_best(
    segments: Seq<SegmentView>,
    comparisons: Seq<Seq<char>>,
    attempts: Seq<Attempt>,
    method: TimingMethod,
)
    requires
        comparisons.contains(PERSONAL_BEST@),
    ensures
        best_within_personal_best(fix_splits(segments, comparisons, attempts), method),
        best_within_splits(fix_splits(segments, comparisons, attempts), method),
{
    let done = fix_splits(segments, comparisons, attempts);
    lemma_fix_splits_stable(segments, comparisons, attempts, method);
    assert(best_within_personal_best(done, method));
    assert forall|i: int|
        1 <= i < done.len() && (#[trigger] done[i]).comparison(PERSONAL_BEST@).at(method) is Some
            && done[i - 1].comparison(PERSONAL_BEST@).at(method)
            is Some implies done[i].best_segment_time.at(method) is Some
        && done[i].best_segment_time.at(method)->0.millis <= done[i].comparison(
        PERSONAL_BEST@,
    ).at(method)->0.millis - done[i - 1].comparison(PERSONAL_BEST@).at(method)->0.millis by {
        assert(running_max(done, PERSONAL_BEST@, method, i) >= done[i - 1].comparison(
            PERSONAL_BEST@,
        ).at(method)->0.millis);
    }
}

/// Idempotence: a run that was fixed is the same after it is fixed again.
pub proof fn lemma_fixed_twice(run: RunView)
    ensures
        run.fixed().fixed() == run.fixed(),
{
    lemma_fix_splits_idempotent(run.segments, run.custom_comparisons, run.attempt_history);
}

} // verus!
