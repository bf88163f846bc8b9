use livesplit_core::{Run, Segment, Time, TimeSpan};

fn span(millis: i64) -> Option<TimeSpan> {
    Some(TimeSpan::from_milliseconds(millis))
}

fn rta(millis: i64) -> Time {
    Time::new().with_real_time(span(millis))
}

fn igt(millis: i64) -> Time {
    Time::new().with_game_time(span(millis))
}

fn both(rta_millis: i64, igt_millis: i64) -> Time {
    Time { real_time: span(rta_millis), game_time: span(igt_millis) }
}

fn histories(run: &Run) -> Vec<Vec<(i32, Time)>> {
    run.segments().iter().map(|s| s.segment_history().entries()).collect()
}

fn run_with_personal_best() -> Run {
    let mut run = Run::new();
    let splits = [rta(10_000), igt(4_000), both(25_000, 3_000)];
    for split in splits {
        let mut segment = Segment::new("x");
        segment.set_personal_best_split_time(split);
        run.push_segment(segment);
    }
    run
}

#[test]
fn the_personal_best_goes_below_the_lowest_index() {
    let mut run = run_with_personal_best();
    run.import_pb_into_segment_history();
    assert_eq!(
        histories(&run),
        vec![
            vec![(-1, Time::new()), (0, rta(10_000))],
            vec![(-1, igt(4_000)), (0, Time::new())],
            vec![(-1, igt(-1_000)), (0, rta(15_000))],
        ]
    );
}

#[test]
fn the_personal_best_goes_below_what_is_there() {
    let mut run = run_with_personal_best();
    run.segment_mut(1).segment_history_mut().insert(-3, rta(1));
    run.segment_mut(2).segment_history_mut().insert(2, rta(2));
    run.import_pb_into_segment_history();
    assert_eq!(
        histories(&run),
        vec![
            vec![(-5, Time::new()), (-4, rta(10_000))],
            vec![(-5, igt(4_000)), (-4, Time::new()), (-3, rta(1))],
            vec![(-5, igt(-1_000)), (-4, rta(15_000)), (2, rta(2))],
        ]
    );
}

#[test]
fn the_best_segment_goes_below_the_lowest_index() {
    let mut run = Run::new();
    run.push_segment(Segment::new("A"));
    run.push_segment(Segment::new("B"));
    run.segment_mut(0).segment_history_mut().insert(-2, rta(1));
    run.segment_mut(1).set_best_segment_time(both(7, 8));
    run.import_best_segment(1);
    assert_eq!(histories(&run), vec![vec![(-2, rta(1))], vec![(-3, both(7, 8))]]);
    run.segment_mut(0).set_best_segment_time(igt(5));
    run.import_best_segment(0);
    assert_eq!(
        histories(&run),
        vec![vec![(-4, igt(5)), (-2, rta(1))], vec![(-3, both(7, 8))]]
    );
}

#[test]
fn a_segment_without_best_segment_time_imports_nothing() {
    let mut run = Run::new();
    run.push_segment(Segment::new("A"));
    run.import_best_segment(0);
    assert_eq!(histories(&run), vec![vec![]]);
}

fn run_with_splits() -> Run {
    let mut run = Run::new();
    let splits = [both(1_000, 900), igt(2_000), rta(5_000), both(6_000, 2_500)];
    for split in splits {
        let mut segment = Segment::new("x");
        segment.set_split_time(split);
        run.push_segment(segment);
    }
    run.add_attempt_with_index(Time::new(), 7, None, None, None);
    run.add_attempt_with_index(Time::new(), 4, None, None, None);
    run
}

#[test]
fn the_segment_times_go_to_the_index_of_the_latest_attempt() {
    let mut run = run_with_splits();
    run.update_segment_history(2);
    assert_eq!(
        histories(&run),
        vec![vec![(4, both(1_000, 900))], vec![(4, igt(1_100))], vec![], vec![]]
    );
}

#[test]
fn a_segment_time_is_the_difference_to_the_last_split_before_it() {
    let mut run = run_with_splits();
    run.update_segment_history(4);
    assert_eq!(
        histories(&run),
        vec![
            vec![(4, both(1_000, 900))],
            vec![(4, igt(1_100))],
            vec![(4, rta(4_000))],
            vec![(4, both(1_000, 500))],
        ]
    );
}

#[test]
fn a_split_index_behind_the_last_segment_takes_them_all() {
    let mut run = run_with_splits();
    run.update_segment_history(100);
    assert_eq!(histories(&run)[3], vec![(4, both(1_000, 500))]);
    run.update_segment_history(0);
    assert_eq!(histories(&run)[3], vec![(4, both(1_000, 500))]);
}

#[test]
fn the_segment_times_replace_what_was_at_the_index() {
    let mut run = run_with_splits();
    run.segment_mut(0).segment_history_mut().insert(4, rta(1));
    run.update_segment_history(1);
    assert_eq!(histories(&run)[0], vec![(4, both(1_000, 900))]);
}

#[test]
fn what_an_import_asks_can_be_tested() {
    let mut run = Run::new();
    assert!(!run.can_import_pb_into_segment_history());
    assert!(!run.can_import_best_segment(0));
    assert!(!run.can_update_segment_history(0));
    assert!(run.can_add_attempt());

    run.push_segment(Segment::new("A"));
    run.push_segment(Segment::new("B"));
    assert!(run.can_import_pb_into_segment_history());
    assert!(run.can_import_best_segment(1));
    assert!(!run.can_import_best_segment(2));
    run.add_attempt(Time::new(), None, None, None);
    assert!(run.can_update_segment_history(2));

    // A difference that is too large to be represented.
    run.segment_mut(0).set_personal_best_split_time(rta(i64::MAX));
    run.segment_mut(1).set_personal_best_split_time(rta(-2));
    assert!(!run.can_import_pb_into_segment_history());
    run.segment_mut(1).set_personal_best_split_time(rta(0));
    assert!(run.can_import_pb_into_segment_history());

    run.segment_mut(0).set_split_time(igt(i64::MIN));
    assert!(run.can_update_segment_history(1));
    run.segment_mut(0).set_split_time(igt(5));
    run.segment_mut(1).set_split_time(igt(i64::MIN));
    assert!(run.can_update_segment_history(1));
    assert!(!run.can_update_segment_history(2));

    // No index is left below the lowest.
    run.segment_mut(0).segment_history_mut().insert(i32::MIN + 1, rta(1));
    assert!(!run.can_import_pb_into_segment_history());
    assert!(run.can_import_best_segment(0));
    run.segment_mut(0).segment_history_mut().insert(i32::MIN, rta(1));
    assert!(!run.can_import_best_segment(0));

    run.add_attempt_with_index(Time::new(), i32::MAX, None, None, None);
    assert!(!run.can_add_attempt());
}
