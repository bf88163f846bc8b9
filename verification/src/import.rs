//! Entries that are brought into the segment histories: the segment times
//! of the personal best, the best segment times, and the segment times of
//! the latest attempt.

use crate::attempt::Attempt;
use crate::reconcile::{min_history_index, min_segment_history_index};
use crate::segment::{all_wf, views, Segment, SegmentView, PERSONAL_BEST};
use crate::time::{Time, TimeSpan, TimingMethod};
use vstd::prelude::*;

verus! {

/// The last time before place `i` that is there, and zero where none is.
pub open spec fn last_before(times: Seq<Option<TimeSpan>>, i: int) -> TimeSpan
    decreases i,
{
    if i <= 0 {
        TimeSpan { millis: 0 }
    } else {
        match times[i - 1] {
            Some(time) => time,
            None => last_before(times, i - 1),
        }
    }
}

/// Whether each of the first `count` times has a difference to the last
/// time before it that can be represented.
pub open spec fn durations_fit_before(times: Seq<Option<TimeSpan>>, count: int) -> bool {
    forall|i: int|
        0 <= i < times.len() && i < count && (#[trigger] times[i]) is Some
            ==> times[i]->0.can_subtract(last_before(times, i))
}

/// Whether each time has a difference to the last time before it that can
/// be represented.
pub open spec fn durations_fit(times: Seq<Option<TimeSpan>>) -> bool {
    durations_fit_before(times, times.len() as int)
}

/// The difference of the time at `i` to the last time before it; absent
/// where the time at `i` is.
pub open spec fn duration_at(times: Seq<Option<TimeSpan>>, i: int) -> Option<TimeSpan> {
    match times[i] {
        Some(time) => Some(TimeSpan { millis: (time.millis - last_before(times, i).millis) as i64 }),
        None => None,
    }
}

/// The split times of the personal best under `method`, one for each
/// segment.
pub open spec fn personal_best_times(segments: Seq<SegmentView>, method: TimingMethod) -> Seq<
    Option<TimeSpan>,
> {
    Seq::new(segments.len(), |i: int| segments[i].comparison(PERSONAL_BEST@).at(method))
}

/// The split times of the current attempt under `method`, one for each
/// segment.
pub open spec fn split_times(segments: Seq<SegmentView>, method: TimingMethod) -> Seq<
    Option<TimeSpan>,
> {
    Seq::new(segments.len(), |i: int| segments[i].split_time.at(method))
}

/// The segments with the segment times of the personal best under
/// `method` at `index` of their histories. The entry of a segment holds no
/// other time, and no time at all where the personal best has no split time
/// for the segment.
pub open spec fn with_personal_best(
    segments: Seq<SegmentView>,
    method: TimingMethod,
    index: int,
) -> Seq<SegmentView> {
    Seq::new(
        segments.len(),
        |i: int|
            SegmentView {
                history: segments[i].history.insert(
                    index,
                    Time::none().with(
                        method,
                        duration_at(personal_best_times(segments, method), i),
                    ),
                ),
                ..segments[i]
            },
    )
}

/// The segments with the segment times of the personal best in their
/// histories: those under real time one below the lowest index in use, and
/// those under game time one below that.
pub open spec fn with_imported_personal_best(segments: Seq<SegmentView>) -> Seq<SegmentView> {
    with_personal_best(
        with_personal_best(
            segments,
            TimingMethod::RealTime,
            min_history_index(segments) - 1,
        ),
        TimingMethod::GameTime,
        min_history_index(segments) - 2,
    )
}

/// The segments with the best segment time of the segment at `at` in its
/// history, one below the lowest index in use. Nothing changes where that
/// segment has no best segment time under either method.
pub open spec fn with_imported_best_segment(segments: Seq<SegmentView>, at: int) -> Seq<
    SegmentView,
> {
    if segments[at].best_segment_time.is_none() {
        segments
    } else {
        segments.update(
            at,
            SegmentView {
                history: segments[at].history.insert(
                    min_history_index(segments) - 1,
                    segments[at].best_segment_time,
                ),
                ..segments[at]
            },
        )
    }
}

/// The time that the segment at `i` took in the current attempt: under
/// each method the difference of its split time to the last split time
/// before it.
pub open spec fn segment_time(segments: Seq<SegmentView>, i: int) -> Time {
    Time {
        real_time: duration_at(split_times(segments, TimingMethod::RealTime), i),
        game_time: duration_at(split_times(segments, TimingMethod::GameTime), i),
    }
}

/// The segments with the segment times of the current attempt at `index`
/// of the histories of the first `count` segments.
pub open spec fn with_segment_times(segments: Seq<SegmentView>, count: int, index: int) -> Seq<
    SegmentView,
> {
    Seq::new(
        segments.len(),
        |i: int|
            if i < count {
                SegmentView {
                    history: segments[i].history.insert(index, segment_time(segments, i)),
                    ..segments[i]
                }
            } else {
                segments[i]
            },
    )
}

/// Whether each of the first `count` times has a difference to the last
/// time before it that can be represented.
pub fn times_fit(times: &Vec<Option<TimeSpan>>, count: usize) -> (fit: bool)
    ensures
        fit == durations_fit_before(times@, count as int),
{
    let mut last: TimeSpan = TimeSpan::zero();
    let mut i: usize = 0;
    while i < times.len() && i < count
        invariant
            i <= times@.len(),
            i <= count,
            last == last_before(times@, i as int),
            durations_fit_before(times@, i as int),
        decreases times@.len() - i,
    {
        if let Some(time) = times[i] {
            if time.checked_minus(last).is_none() {
                proof {
                    assert(times@[i as int] is Some);
                }
                return false;
            }
            last = time;
        }
        i += 1;
    }
    true
}

/// The split times of the personal best under `method`, one for each
/// segment.
pub fn collect_personal_best_times(segments: &Vec<Segment>, method: TimingMethod) -> (times: Vec<
    Option<TimeSpan>,
>)
    ensures
        times@ == personal_best_times(views(segments@), method),
{
    let mut times: Vec<Option<TimeSpan>> = Vec::new();
    let mut i: usize = 0;
    while i < segments.len()
        invariant
            i <= segments@.len(),
            times@ == personal_best_times(views(segments@), method).take(i as int),
        decreases segments@.len() - i,
    {
        times.push(segments[i].personal_best_split_time().get(method));
        i += 1;
        proof {
            assert(times@ =~= personal_best_times(views(segments@), method).take(i as int));
        }
    }
    proof {
        assert(times@ =~= personal_best_times(views(segments@), method));
    }
    times
}

/// The split times of the current attempt under `method`, one for each
/// segment.
pub fn collect_split_times(segments: &Vec<Segment>, method: TimingMethod) -> (times: Vec<
    Option<TimeSpan>,
>)
    ensures
        times@ == split_times(views(segments@), method),
{
    let mut times: Vec<Option<TimeSpan>> = Vec::new();
    let mut i: usize = 0;
    while i < segments.len()
        invariant
            i <= segments@.len(),
            times@ == split_times(views(segments@), method).take(i as int),
        decreases segments@.len() - i,
    {
        times.push(segments[i].split_time().get(method));
        i += 1;
        proof {
            assert(times@ =~= split_times(views(segments@), method).take(i as int));
        }
    }
    proof {
        assert(times@ =~= split_times(views(segments@), method));
    }
    times
}

/// Puts the segment times of the personal best under `method` at `index`
/// of the segment histories.
fn import_pb_under_method(segments: &mut Vec<Segment>, method: TimingMethod, index: i32)
    requires
        all_wf(old(segments)@),
        durations_fit(personal_best_times(views(old(segments)@), method)),
    ensures
        all_wf(final(segments)@),
        views(final(segments)@) == with_personal_best(views(old(segments)@), method, index as int),
{
    let ghost start = views(segments@);
    let ghost times = personal_best_times(start, method);
    let len = segments.len();
    let mut prev_time: TimeSpan = TimeSpan::zero();
    let mut i: usize = 0;
    while i < len
        invariant
            len == segments@.len(),
            start == views(old(segments)@),
            start.len() == len,
            times == personal_best_times(start, method),
            durations_fit(times),
            all_wf(segments@),
            i <= len,
            prev_time == last_before(times, i as int),
            forall|j: int|
                0 <= j < i ==> (#[trigger] segments@[j])@ == with_personal_best(
                    start,
                    method,
                    index as int,
                )[j],
            forall|j: int| i <= j < len ==> #[trigger] segments@[j] == old(segments)@[j],
        decreases len - i,
    {
        proof {
            assert(segments@[i as int]@ == start[i as int]);
            assert(times[i as int] == start[i as int].comparison(PERSONAL_BEST@).at(method));
        }
        // The split of the personal best becomes a segment time.
        let pb_time: Option<TimeSpan> = segments[i].personal_best_split_time().get(method);
        let duration: Option<TimeSpan> = match pb_time {
            Some(p) => Some(p.minus(prev_time)),
            None => None,
        };
        let time: Time = Time::new().with_timing_method(method, duration);
        segments[i].segment_history_mut().insert(index, time);
        if let Some(p) = pb_time {
            prev_time = p;
        }
        i += 1;
    }
    proof {
        assert(views(segments@) =~= with_personal_best(start, method, index as int));
    }
}

/// The comparison times are the same after an entry went into the
/// histories.
proof fn lemma_same_personal_best(segments: Seq<SegmentView>, method: TimingMethod, index: int)
    ensures
        personal_best_times(with_personal_best(segments, method, index), TimingMethod::GameTime)
            == personal_best_times(segments, TimingMethod::GameTime),
{
    assert(personal_best_times(
        with_personal_best(segments, method, index),
        TimingMethod::GameTime,
    ) =~= personal_best_times(segments, TimingMethod::GameTime));
}

/// Puts the segment times of the personal best into the segment
/// histories, as synthetic entries: the times under real time one below the
/// lowest index in use, those under game time one below that. The segment
/// time of a segment is the difference of its split time in the personal
/// best to the last split time before it.
pub fn import_pb_into_segment_history(segments: &mut Vec<Segment>)
    requires
        old(segments)@.len() > 0,
        all_wf(old(segments)@),
        min_history_index(views(old(segments)@)) - 2 >= i32::MIN,
        durations_fit(personal_best_times(views(old(segments)@), TimingMethod::RealTime)),
        durations_fit(personal_best_times(views(old(segments)@), TimingMethod::GameTime)),
    ensures
        all_wf(final(segments)@),
        views(final(segments)@) == with_imported_personal_best(views(old(segments)@)),
{
    let ghost start = views(segments@);
    let index: i32 = min_segment_history_index(segments);
    import_pb_under_method(segments, TimingMethod::RealTime, index - 1);
    proof {
        lemma_same_personal_best(start, TimingMethod::RealTime, index - 1);
    }
    import_pb_under_method(segments, TimingMethod::GameTime, index - 2);
}

/// Puts the best segment time of the segment at `segment_index` into its
/// history, as a synthetic entry one below the lowest index in use. Nothing
/// happens where the segment has no best segment time under either method.
pub fn import_best_segment(segments: &mut Vec<Segment>, segment_index: usize)
    requires
        segment_index < old(segments)@.len(),
        all_wf(old(segments)@),
        min_history_index(views(old(segments)@)) - 1 >= i32::MIN,
    ensures
        all_wf(final(segments)@),
        views(final(segments)@) == with_imported_best_segment(
            views(old(segments)@),
            segment_index as int,
        ),
{
    let ghost start = views(segments@);
    let best_segment_time: Time = segments[segment_index].best_segment_time();
    proof {
        assert(segments@[segment_index as int]@ == start[segment_index as int]);
    }
    if best_segment_time.real_time.is_some() || best_segment_time.game_time.is_some() {
        let index: i32 = min_segment_history_index(segments) - 1;
        segments[segment_index].segment_history_mut().insert(index, best_segment_time);
        proof {
            assert(views(segments@) =~= with_imported_best_segment(start, segment_index as int));
        }
    }
}

/// Puts the segment times of the current attempt into the histories of the
/// segments before `current_split_index`, at the index of the latest
/// attempt. Under each method the segment time of a segment is the
/// difference of its split time to the last split time before it.
pub fn update_segment_history(
    segments: &mut Vec<Segment>,
    attempts: &Vec<Attempt>,
    current_split_index: usize,
)
    requires
        attempts@.len() > 0,
        all_wf(old(segments)@),
        durations_fit_before(
            split_times(views(old(segments)@), TimingMethod::RealTime),
            current_split_index as int,
        ),
        durations_fit_before(
            split_times(views(old(segments)@), TimingMethod::GameTime),
            current_split_index as int,
        ),
    ensures
        all_wf(final(segments)@),
        views(final(segments)@) == with_segment_times(
            views(old(segments)@),
            current_split_index as int,
            attempts@.last().index as int,
        ),
{
    let ghost start = views(segments@);
    let ghost real_times = split_times(start, TimingMethod::RealTime);
    let ghost game_times = split_times(start, TimingMethod::GameTime);
    let mut last_real_time: TimeSpan = TimeSpan::zero();
    let mut last_game_time: TimeSpan = TimeSpan::zero();
    let index: i32 = attempts[attempts.len() - 1].index();
    let count: usize = if current_split_index < segments.len() {
        current_split_index
    } else {
        segments.len()
    };
    let mut i: usize = 0;
    while i < count
        invariant
            count <= segments@.len(),
            start == views(old(segments)@),
            start.len() == segments@.len(),
            real_times == split_times(start, TimingMethod::RealTime),
            game_times == split_times(start, TimingMethod::GameTime),
            durations_fit_before(real_times, count as int),
            durations_fit_before(game_times, count as int),
            all_wf(segments@),
            i <= count,
            last_real_time == last_before(real_times, i as int),
            last_game_time == last_before(game_times, i as int),
            forall|j: int|
                0 <= j < i ==> (#[trigger] segments@[j])@ == (SegmentView {
                    history: start[j].history.insert(index as int, segment_time(start, j)),
                    ..start[j]
                }),
            forall|j: int| i <= j < segments@.len() ==> #[trigger] segments@[j] == old(segments)@[j],
        decreases count - i,
    {
        proof {
            assert(segments@[i as int]@ == start[i as int]);
            assert(real_times[i as int] == start[i as int].split_time.real_time);
            assert(game_times[i as int] == start[i as int].split_time.game_time);
        }
        let split_time: Time = segments[i].split_time();
        let segment_time: Time = Time {
            real_time: match split_time.real_time {
                Some(time) => Some(time.minus(last_real_time)),
                None => None,
            },
            game_time: match split_time.game_time {
                Some(time) => Some(time.minus(last_game_time)),
                None => None,
            },
        };
        segments[i].segment_history_mut().insert(index, segment_time);
        if let Some(time) = split_time.real_time {
            last_real_time = time;
        }
        if let Some(time) = split_time.game_time {
            last_game_time = time;
        }
        i += 1;
    }
    proof {
        assert(views(segments@) =~= with_segment_times(
            start,
            current_split_index as int,
            index as int,
        ));
    }
}

} // verus!
