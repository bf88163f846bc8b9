use livesplit_core::reconcile::{
    fix_comparison_times, fix_comparison_times_and_history, fix_history_from_best_segment_times,
    fix_history_from_none_best_segments, min_segment_history_index, remove_duplicates,
    remove_items_from_cache, remove_none_values,
};
use livesplit_core::{Attempt, Run, Segment, Time, TimeSpan, TimingMethod};

fn span(millis: i64) -> Option<TimeSpan> {
    Some(TimeSpan::from_milliseconds(millis))
}

fn rta(millis: i64) -> Time {
    Time::new().with_real_time(span(millis))
}

fn igt(millis: i64) -> Time {
    Time::new().with_game_time(span(millis))
}

fn both(rta_millis: i64, igt_millis: i64) -> Time {
    Time { real_time: span(rta_millis), game_time: span(igt_millis) }
}

fn segment(name: &str, history: &[(i32, Time)]) -> Segment {
    let mut segment = Segment::new(name);
    for &(index, time) in history {
        segment.segment_history_mut().insert(index, time);
    }
    segment
}

fn attempts(indices: &[i32]) -> Vec<Attempt> {
    indices
        .iter()
        .map(|&index| Attempt::new(index, Time::new(), None, None, None))
        .collect()
}

fn histories(segments: &[Segment]) -> Vec<Vec<(i32, Time)>> {
    segments.iter().map(|s| s.segment_history().entries()).collect()
}

fn comparison(segments: &[Segment], name: &str) -> Vec<Time> {
    segments.iter().map(|s| s.comparison(name)).collect()
}

fn best_segments(segments: &[Segment]) -> Vec<Time> {
    segments.iter().map(|s| s.best_segment_time()).collect()
}

/// Three segments whose personal best falls at the second split, with a
/// second comparison that falls at the third.
fn troubled_run() -> Run {
    let mut run = Run::new();
    run.add_custom_comparison("Race");

    let mut first = segment("First", &[(-1, rta(12_000)), (1, rta(9_000)), (2, Time::new())]);
    first.set_personal_best_split_time(rta(10_000));
    first.set_comparison("Race", rta(8_000));
    run.push_segment(first);

    let mut second = segment("Second", &[(1, rta(2_000)), (2, rta(4_000))]);
    second.set_personal_best_split_time(rta(5_000));
    second.set_best_segment_time(rta(3_000));
    run.push_segment(second);

    let mut third = segment("Third", &[(1, rta(4_000))]);
    third.set_personal_best_split_time(rta(20_000));
    third.set_comparison("Race", rta(7_000));
    third.set_best_segment_time(both(5_000, -5));
    run.push_segment(third);

    run.add_attempt(Time::new(), None, None, None);
    run.add_attempt(Time::new(), None, None, None);
    run
}

#[test]
fn fix_splits_brings_a_run_in_order() {
    let mut run = troubled_run();
    run.fix_splits();
    let segments = run.segments();
    assert_eq!(
        comparison(segments, "Personal Best"),
        vec![rta(10_000), rta(10_000), rta(20_000)]
    );
    assert_eq!(comparison(segments, "Race"), vec![rta(8_000), Time::new(), rta(8_000)]);
    assert_eq!(best_segments(segments), vec![rta(10_000), rta(0), rta(5_000)]);
    assert_eq!(
        histories(segments),
        vec![
            vec![(2, Time::new())],
            vec![(1, rta(2_000)), (2, rta(4_000))],
            vec![(1, rta(5_000))],
        ]
    );
    assert_eq!(run.custom_comparisons().len(), 2);
    assert_eq!(run.attempt_history().len(), 2);
}

#[test]
fn fix_splits_twice_is_fix_splits_once() {
    let mut run = troubled_run();
    run.fix_splits();
    let pb = comparison(run.segments(), "Personal Best");
    let race = comparison(run.segments(), "Race");
    let best = best_segments(run.segments());
    let history = histories(run.segments());
    run.fix_splits();
    assert_eq!(comparison(run.segments(), "Personal Best"), pb);
    assert_eq!(comparison(run.segments(), "Race"), race);
    assert_eq!(best_segments(run.segments()), best);
    assert_eq!(histories(run.segments()), history);
}

#[test]
fn after_fix_splits_no_comparison_decreases() {
    let mut run = troubled_run();
    run.fix_splits();
    for name in ["Personal Best", "Race"] {
        for method in TimingMethod::all() {
            let mut previous = TimeSpan::zero();
            for segment in run.segments() {
                if let Some(time) = segment.comparison(name).get(method) {
                    assert!(!time.is_less_than(previous));
                    previous = time;
                }
            }
        }
    }
}

#[test]
fn after_fix_splits_the_history_is_above_the_best_segment() {
    let mut run = troubled_run();
    run.fix_splits();
    for method in TimingMethod::all() {
        for segment in run.segments() {
            if let Some(best) = segment.best_segment_time().get(method) {
                assert!(!best.is_less_than(TimeSpan::zero()));
                for (_, time) in segment.segment_history().entries() {
                    if let Some(time) = time.get(method) {
                        assert!(!time.is_less_than(best));
                    }
                }
            }
        }
    }
}

#[test]
fn after_fix_splits_the_best_segment_is_within_the_personal_best() {
    let mut run = troubled_run();
    run.fix_splits();
    let segments = run.segments();
    for method in TimingMethod::all() {
        for i in 1..segments.len() {
            let current = segments[i].personal_best_split_time().get(method);
            let previous = segments[i - 1].personal_best_split_time().get(method);
            if let (Some(current), Some(previous)) = (current, previous) {
                let best = segments[i].best_segment_time().get(method).unwrap();
                assert!(!current.minus(previous).is_less_than(best));
            }
        }
    }
}

#[test]
fn a_negative_best_segment_time_is_removed() {
    let mut first = segment("A", &[(1, both(10, 20))]);
    first.set_best_segment_time(both(-1, 5));
    let mut segments = vec![first];
    fix_comparison_times_and_history(&mut segments, &vec![], TimingMethod::RealTime);
    assert_eq!(best_segments(&segments), vec![igt(5)]);
    // Without a best segment time, the time in the history is stale.
    assert_eq!(histories(&segments), vec![vec![]]);
}

#[test]
fn a_best_segment_time_of_zero_stays() {
    let mut first = segment("A", &[(1, rta(10))]);
    first.set_best_segment_time(rta(0));
    let mut segments = vec![first];
    fix_comparison_times_and_history(&mut segments, &vec![], TimingMethod::RealTime);
    assert_eq!(best_segments(&segments), vec![rta(0)]);
    assert_eq!(histories(&segments), vec![vec![(1, rta(10))]]);
}

#[test]
fn history_without_a_best_segment_time_keeps_only_skipped_entries() {
    let mut a = segment("A", &[(-1, rta(5)), (1, igt(7)), (2, Time::new()), (3, both(1, 2))]);
    fix_history_from_none_best_segments(&mut a, TimingMethod::RealTime);
    assert_eq!(a.segment_history().entries(), vec![(1, igt(7)), (2, Time::new())]);

    let mut b = segment("B", &[(-1, rta(5)), (1, igt(7))]);
    b.set_best_segment_time(rta(3));
    fix_history_from_none_best_segments(&mut b, TimingMethod::RealTime);
    assert_eq!(b.segment_history().entries(), vec![(-1, rta(5)), (1, igt(7))]);
    fix_history_from_none_best_segments(&mut b, TimingMethod::GameTime);
    assert_eq!(b.segment_history().entries(), vec![(-1, rta(5))]);
}

#[test]
fn history_is_raised_to_the_best_segment_time() {
    let mut a = segment("A", &[(-1, rta(5)), (1, both(20, 1)), (2, Time::new())]);
    a.set_best_segment_time(both(10, 1));
    fix_history_from_best_segment_times(&mut a, TimingMethod::RealTime);
    assert_eq!(
        a.segment_history().entries(),
        vec![(-1, rta(10)), (1, both(20, 1)), (2, Time::new())]
    );
    let mut b = segment("B", &[(1, rta(5))]);
    fix_history_from_best_segment_times(&mut b, TimingMethod::RealTime);
    assert_eq!(b.segment_history().entries(), vec![(1, rta(5))]);
}

#[test]
fn a_comparison_is_raised_to_the_time_before_it() {
    let times = [Some(30), None, Some(10), Some(40), Some(-5), Some(40)];
    let mut segments: Vec<Segment> = Vec::new();
    for time in times {
        let mut s = Segment::new("x");
        if let Some(millis) = time {
            s.set_comparison("Race", both(millis, 1));
        }
        s.set_best_segment_time(rta(1));
        segments.push(s);
    }
    fix_comparison_times(&mut segments, "Race", TimingMethod::RealTime);
    assert_eq!(
        comparison(&segments, "Race"),
        vec![both(30, 1), Time::new(), both(30, 1), both(40, 1), both(40, 1), both(40, 1)]
    );
    // Only the personal best touches the best segment times.
    assert_eq!(best_segments(&segments), vec![rta(1); 6]);
}

#[test]
fn a_negative_comparison_time_is_raised_to_zero() {
    let mut s = Segment::new("x");
    s.set_comparison("Race", igt(-10));
    let mut segments = vec![s];
    fix_comparison_times(&mut segments, "Race", TimingMethod::GameTime);
    assert_eq!(comparison(&segments, "Race"), vec![igt(0)]);
}

#[test]
fn the_personal_best_lowers_the_best_segment_times() {
    let splits = [100, 250, 200, 600];
    let bests = [Some(150), Some(100), Some(10), None];
    let mut segments: Vec<Segment> = Vec::new();
    for i in 0..4 {
        let mut s = Segment::new("x");
        s.set_personal_best_split_time(rta(splits[i]));
        if let Some(best) = bests[i] {
            s.set_best_segment_time(rta(best));
        }
        segments.push(s);
    }
    fix_comparison_times(&mut segments, "Personal Best", TimingMethod::RealTime);
    assert_eq!(
        comparison(&segments, "Personal Best"),
        vec![rta(100), rta(250), rta(250), rta(600)]
    );
    assert_eq!(best_segments(&segments), vec![rta(100), rta(100), rta(0), rta(350)]);
}

#[test]
fn comparisons_are_fixed_in_their_order() {
    let mut s = Segment::new("x");
    s.set_comparison("A", rta(-1));
    s.set_comparison("B", rta(-2));
    s.set_comparison("C", rta(-3));
    let mut segments = vec![s];
    let names = vec!["A".to_string(), "C".to_string()];
    fix_comparison_times_and_history(&mut segments, &names, TimingMethod::RealTime);
    assert_eq!(segments[0].comparison("A"), rta(0));
    assert_eq!(segments[0].comparison("B"), rta(-2));
    assert_eq!(segments[0].comparison("C"), rta(0));
}

#[test]
fn remove_duplicates_goes_through_each_segment_on_its_own() {
    let mut segments = vec![
        segment("A", &[(-1, rta(100)), (0, rta(100)), (1, rta(100))]),
        segment("B", &[(-1, rta(100)), (0, rta(100)), (1, rta(250))]),
        segment("C", &[(0, rta(100))]),
    ];
    remove_duplicates(&mut segments);
    assert_eq!(
        histories(&segments),
        vec![
            vec![(1, rta(100))],
            vec![(-1, rta(100)), (1, rta(250))],
            vec![(0, rta(100))],
        ]
    );
}

#[test]
fn the_lowest_index_of_all_histories() {
    let segments = vec![
        segment("A", &[(3, rta(1))]),
        segment("B", &[(-4, rta(1)), (2, rta(1))]),
        segment("C", &[(-2, rta(1))]),
    ];
    assert_eq!(min_segment_history_index(&segments), -4);
    let segments = vec![segment("A", &[(3, rta(1))]), segment("B", &[])];
    assert_eq!(min_segment_history_index(&segments), 1);
    let mut run = Run::new();
    run.push_segment(segment("A", &[(0, rta(1))]));
    assert_eq!(run.min_segment_history_index(), 0);
}

#[test]
fn entries_without_a_time_stay_only_before_a_time() {
    let blank = Time::new();
    let mut segments = vec![
        segment("A", &[(0, blank), (1, blank), (2, rta(5)), (3, blank)]),
        segment("B", &[(1, blank), (2, blank)]),
        segment("C", &[(-1, blank), (0, blank), (1, igt(5))]),
    ];
    remove_none_values(&mut segments, &attempts(&[1, 2]));
    assert_eq!(
        histories(&segments),
        vec![
            vec![(1, blank), (2, rta(5)), (3, blank)],
            vec![(1, blank)],
            vec![(1, igt(5))],
        ]
    );
}

#[test]
fn without_attempts_the_rows_up_to_zero_are_pruned() {
    let blank = Time::new();
    let mut segments = vec![
        segment("A", &[(-1, blank), (0, blank), (1, blank)]),
        segment("B", &[(-1, rta(1)), (1, blank)]),
    ];
    remove_none_values(&mut segments, &attempts(&[]));
    assert_eq!(
        histories(&segments),
        vec![vec![(-1, blank), (1, blank)], vec![(-1, rta(1)), (1, blank)]]
    );
}

#[test]
fn pruning_twice_changes_nothing_more() {
    let blank = Time::new();
    let mut segments = vec![
        segment("A", &[(1, blank), (2, blank)]),
        segment("B", &[(1, blank), (2, rta(3))]),
        segment("C", &[(1, blank)]),
    ];
    remove_none_values(&mut segments, &attempts(&[2]));
    let once = histories(&segments);
    assert_eq!(once, vec![vec![(2, blank)], vec![(2, rta(3))], vec![]]);
    remove_none_values(&mut segments, &attempts(&[2]));
    assert_eq!(histories(&segments), once);
}

#[test]
fn the_cache_is_emptied_into_the_segments_before_the_index() {
    let mut segments = vec![
        segment("A", &[(1, rta(1)), (2, rta(2))]),
        segment("B", &[(1, rta(1)), (2, rta(2))]),
        segment("C", &[(1, rta(1)), (2, rta(2))]),
    ];
    let mut cache = vec![1, 2];
    remove_items_from_cache(&mut segments, 3, &mut cache);
    assert!(cache.is_empty());
    assert_eq!(
        histories(&segments),
        vec![
            vec![(1, rta(1)), (2, rta(2))],
            vec![(2, rta(2))],
            vec![(1, rta(1))],
        ]
    );
}

/// A small generator of numbers that look random and are the same on every
/// run.
struct Numbers(u64);

impl Numbers {
    fn next(&mut self, bound: u64) -> u64 {
        self.0 = self.0.wrapping_mul(6364136223846793005).wrapping_add(1442695040888963407);
        (self.0 >> 33) % bound
    }

    fn span(&mut self) -> Option<TimeSpan> {
        if self.next(4) == 0 {
            None
        } else {
            Some(TimeSpan::from_milliseconds(self.next(60) as i64 - 10))
        }
    }

    fn time(&mut self) -> Time {
        Time { real_time: self.span(), game_time: self.span() }
    }

    fn run(&mut self) -> Run {
        let mut run = Run::new();
        run.add_custom_comparison("Race");
        if self.next(3) == 0 {
            run.custom_comparisons_mut().push("Personal Best".to_string());
        }
        for _ in 0..(1 + self.next(5)) {
            let mut segment = Segment::new("x");
            segment.set_personal_best_split_time(self.time());
            segment.set_best_segment_time(self.time());
            if self.next(2) == 0 {
                segment.set_comparison("Race", self.time());
            }
            if self.next(2) == 0 {
                segment.set_comparison("Other", self.time());
            }
            for index in -3..5 {
                if self.next(2) == 0 {
                    let time = self.time();
                    segment.segment_history_mut().insert(index, time);
                }
            }
            run.push_segment(segment);
        }
        for _ in 0..self.next(5) {
            run.add_attempt(Time::new(), None, None, None);
        }
        run
    }
}

type Snapshot = Vec<(Time, Time, Time, Time, Vec<(i32, Time)>)>;

fn snapshot(run: &Run) -> Snapshot {
    run.segments()
        .iter()
        .map(|s| {
            (
                s.best_segment_time(),
                s.personal_best_split_time(),
                s.comparison("Race"),
                s.comparison("Other"),
                s.segment_history().entries(),
            )
        })
        .collect()
}

#[test]
fn what_holds_after_fix_splits_holds_on_many_runs() {
    let mut numbers = Numbers(2024);
    for _ in 0..300 {
        let mut run = numbers.run();
        let others: Vec<Time> = run.segments().iter().map(|s| s.comparison("Other")).collect();
        let max_index = run.max_attempt_history_index().unwrap_or(0);
        run.fix_splits();
        let once = snapshot(&run);
        let segments = run.segments();
        for method in TimingMethod::all() {
            for name in ["Personal Best", "Race"] {
                let mut previous = TimeSpan::zero();
                for segment in segments {
                    if let Some(time) = segment.comparison(name).get(method) {
                        assert!(!time.is_less_than(previous));
                        previous = time;
                    }
                }
            }
            let mut previous = TimeSpan::zero();
            for segment in segments {
                let best = segment.best_segment_time().get(method);
                if let Some(best) = best {
                    assert!(!best.is_less_than(TimeSpan::zero()));
                }
                for (_, time) in segment.segment_history().entries() {
                    match (time.get(method), best) {
                        (Some(time), Some(best)) => assert!(!time.is_less_than(best)),
                        (Some(_), None) => panic!("a time without a best segment time"),
                        _ => {}
                    }
                }
                if let Some(split) = segment.personal_best_split_time().get(method) {
                    let best = best.expect("a split without a best segment time");
                    assert!(!split.minus(previous).is_less_than(best));
                    previous = split;
                }
            }
        }
        for (i, segment) in segments.iter().enumerate() {
            // A comparison that is not among the custom comparisons stays.
            assert_eq!(segment.comparison("Other"), others[i]);
            let entries = segment.segment_history().entries();
            for (k, &(index, time)) in entries.iter().enumerate() {
                if index <= max_index && time.is_empty() {
                    // An entry without a time is followed by one of its row.
                    assert!(segments[i + 1].segment_history().get(index).is_some());
                }
                if index < 1 && !time.is_empty() {
                    // A synthetic entry holds a duration that was not met.
                    let real_met = entries.iter().enumerate().any(|(j, (at, other))| {
                        (*at >= 1 || j < k)
                            && time.real_time.is_some()
                            && other.real_time == time.real_time
                    });
                    let game_met = entries.iter().enumerate().any(|(j, (at, other))| {
                        (*at >= 1 || j < k)
                            && time.game_time.is_some()
                            && other.game_time == time.game_time
                    });
                    assert!(
                        (time.real_time.is_some() && !real_met)
                            || (time.game_time.is_some() && !game_met)
                    );
                }
            }
        }
        run.fix_splits();
        assert_eq!(snapshot(&run), once);
    }
}
