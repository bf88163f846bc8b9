use livesplit_core::{AtomicDateTime, Image, Run, Segment, Time, TimeSpan};
use std::path::PathBuf;

fn span(millis: i64) -> Option<TimeSpan> {
    Some(TimeSpan::from_milliseconds(millis))
}

fn rta(millis: i64) -> Time {
    Time::new().with_real_time(span(millis))
}

fn indices(run: &Run) -> Vec<i32> {
    run.attempt_history().iter().map(|a| a.index()).collect()
}

#[test]
fn a_new_run_is_empty() {
    let run = Run::new();
    assert_eq!(run.game_name(), "");
    assert_eq!(run.category_name(), "");
    assert!(run.game_icon().is_empty());
    assert_eq!(run.offset(), TimeSpan::zero());
    assert_eq!(run.attempt_count(), 0);
    assert!(run.attempt_history().is_empty());
    assert!(run.segments().is_empty());
    assert_eq!(run.len(), 0);
    assert!(run.is_empty());
    assert!(run.auto_splitter_settings().is_empty());
    assert_eq!(run.metadata().run_id(), "");
    assert_eq!(run.max_attempt_history_index(), None);
    assert_eq!(run.path(), &None);
    assert!(!run.has_been_modified());
}

#[test]
fn what_is_set_is_what_is_there() {
    let mut run = Run::new();
    run.set_game_name("Super Mario Odyssey");
    run.set_category_name("Darker Side");
    run.set_game_icon(Image::new(vec![1, 2, 3]));
    run.set_offset(TimeSpan::from_milliseconds(-2_500));
    run.set_attempt_count(17);
    run.set_path(Some(PathBuf::from("splits.lss")));
    run.auto_splitter_settings_mut().extend_from_slice(b"<A>1</A>");
    assert!(!run.has_been_modified());
    run.mark_as_changed();
    assert!(run.has_been_modified());
    assert_eq!(run.path(), &Some(PathBuf::from("splits.lss")));
    assert_eq!(run.game_name(), "Super Mario Odyssey");
    assert_eq!(run.category_name(), "Darker Side");
    assert_eq!(run.game_icon().data(), &vec![1, 2, 3]);
    assert_eq!(run.offset().total_milliseconds(), -2_500);
    assert_eq!(run.attempt_count(), 17);
    assert_eq!(run.auto_splitter_settings(), b"<A>1</A>");
    run.set_game_name("Zelda");
    assert_eq!(run.game_name(), "Zelda");
}

#[test]
fn start_next_run_counts_an_attempt() {
    let mut run = Run::new();
    assert!(!run.has_been_modified());
    run.start_next_run();
    run.start_next_run();
    assert_eq!(run.attempt_count(), 2);
    assert!(run.has_been_modified());
}

#[test]
fn segments_stay_in_the_order_of_the_run() {
    let mut run = Run::new();
    run.push_segment(Segment::new("Cap Kingdom"));
    run.push_segment(Segment::new("Cascade Kingdom"));
    assert_eq!(run.len(), 2);
    assert!(!run.is_empty());
    assert_eq!(run.segment(0).name(), "Cap Kingdom");
    assert_eq!(run.segment(1).name(), "Cascade Kingdom");
    run.segment_mut(1).set_name("Sand Kingdom");
    run.segments_mut().push(Segment::new("Lake Kingdom"));
    let names: Vec<&str> = run.segments().iter().map(|s| s.name()).collect();
    assert_eq!(names, vec!["Cap Kingdom", "Sand Kingdom", "Lake Kingdom"]);
}

#[test]
fn a_segment_holds_what_it_is_given() {
    let mut segment = Segment::new("Cap Kingdom");
    assert_eq!(segment.split_time(), Time::new());
    assert_eq!(segment.best_segment_time(), Time::new());
    assert_eq!(segment.comparison("Race"), Time::new());
    assert_eq!(segment.personal_best_split_time(), Time::new());
    assert!(segment.icon().is_empty());
    assert!(segment.segment_history().is_empty());
    segment.set_split_time(rta(1));
    segment.set_best_segment_time(rta(2));
    segment.set_comparison("Race", rta(3));
    segment.set_personal_best_split_time(rta(4));
    segment.set_comparison("Race", rta(5));
    segment.set_icon(Image::new(vec![9]));
    assert_eq!(segment.split_time(), rta(1));
    assert_eq!(segment.best_segment_time(), rta(2));
    assert_eq!(segment.comparison("Race"), rta(5));
    assert_eq!(segment.comparison("race"), Time::new());
    assert_eq!(segment.comparison("Personal Best"), rta(4));
    assert_eq!(segment.personal_best_split_time(), rta(4));
    assert_eq!(segment.icon().data(), &vec![9]);
    segment.clear_comparisons();
    assert_eq!(segment.comparison("Race"), Time::new());
    assert_eq!(segment.personal_best_split_time(), Time::new());
    assert_eq!(segment.best_segment_time(), rta(2));
}

#[test]
fn attempts_are_numbered_from_one() {
    let mut run = Run::new();
    for _ in 0..5 {
        run.add_attempt(Time::new(), None, None, None);
    }
    assert_eq!(indices(&run), vec![1, 2, 3, 4, 5]);
    assert_eq!(run.max_attempt_history_index(), Some(5));
}

#[test]
fn an_attempt_keeps_its_values() {
    let mut run = Run::new();
    let started = AtomicDateTime::new(5, true);
    let ended = AtomicDateTime::new(9, false);
    run.add_attempt(rta(4), Some(started), Some(ended), span(1));
    let attempt = run.attempt_history()[0];
    assert_eq!(attempt.index(), 1);
    assert_eq!(attempt.time(), rta(4));
    assert_eq!(attempt.started(), Some(started));
    assert_eq!(attempt.ended(), Some(ended));
    assert_eq!(attempt.pause_time(), span(1));
}

#[test]
fn the_next_index_is_above_the_highest() {
    let mut run = Run::new();
    run.add_attempt_with_index(Time::new(), 10, None, None, None);
    run.add_attempt_with_index(Time::new(), 3, None, None, None);
    run.add_attempt(Time::new(), None, None, None);
    assert_eq!(indices(&run), vec![10, 3, 11]);
    assert_eq!(run.max_attempt_history_index(), Some(11));
}

#[test]
fn the_next_index_is_one_at_least() {
    let mut run = Run::new();
    run.add_attempt_with_index(Time::new(), -5, None, None, None);
    assert_eq!(run.max_attempt_history_index(), Some(-5));
    run.add_attempt(Time::new(), None, None, None);
    assert_eq!(indices(&run), vec![-5, 1]);
    let mut run = Run::new();
    run.add_attempt_with_index(Time::new(), 0, None, None, None);
    run.add_attempt(Time::new(), None, None, None);
    assert_eq!(indices(&run), vec![0, 1]);
}

#[test]
fn clear_run_id_forgets_the_id() {
    let mut run = Run::new();
    run.metadata_mut().set_run_id("abc123");
    run.metadata_mut().set_region_name("JPN");
    assert_eq!(run.metadata().run_id(), "abc123");
    run.clear_run_id();
    assert_eq!(run.metadata().run_id(), "");
    assert_eq!(run.metadata().region_name(), "JPN");
}

fn run_with_times() -> Run {
    let mut run = Run::new();
    run.set_game_name("Game");
    run.add_custom_comparison("Race");
    run.custom_comparisons_mut().push("Personal Best".to_string());
    run.metadata_mut().set_run_id("abc123");
    run.set_attempt_count(3);
    let mut segment = Segment::new("A");
    segment.set_split_time(rta(1));
    segment.set_best_segment_time(rta(2));
    segment.set_comparison("Race", rta(3));
    segment.segment_history_mut().insert(1, rta(4));
    run.push_segment(segment);
    run.add_attempt(rta(4), None, None, None);
    run
}

#[test]
fn clear_history_removes_attempts_and_segment_histories() {
    let mut run = run_with_times();
    run.clear_history();
    assert!(run.attempt_history().is_empty());
    assert!(run.segment(0).segment_history().is_empty());
    assert_eq!(run.segment(0).best_segment_time(), rta(2));
    assert_eq!(run.segment(0).comparison("Race"), rta(3));
    assert_eq!(run.segment(0).split_time(), rta(1));
    assert_eq!(run.attempt_count(), 3);
    assert_eq!(run.metadata().run_id(), "abc123");
    assert_eq!(run.custom_comparisons().len(), 3);
}

#[test]
fn clear_times_leaves_the_segments_without_times() {
    let mut run = run_with_times();
    run.clear_times();
    assert!(run.attempt_history().is_empty());
    assert!(run.segment(0).segment_history().is_empty());
    assert_eq!(run.segment(0).best_segment_time(), Time::new());
    assert_eq!(run.segment(0).comparison("Race"), Time::new());
    assert_eq!(run.segment(0).split_time(), rta(1));
    assert_eq!(run.segment(0).name(), "A");
    assert_eq!(run.attempt_count(), 0);
    assert_eq!(run.metadata().run_id(), "");
    assert_eq!(run.custom_comparisons(), ["Personal Best", "Personal Best"]);
    assert_eq!(run.game_name(), "Game");
}

#[test]
fn metadata_keeps_its_variables_in_order() {
    let mut run = Run::new();
    let metadata = run.metadata_mut();
    metadata.add_variable("Version", "1.0");
    metadata.add_variable("Difficulty", "Hard");
    metadata.add_variable("Version", "1.1");
    metadata.set_platform_name("Wii");
    metadata.set_emulator_usage(true);
    assert_eq!(metadata.variable_count(), 2);
    assert_eq!(metadata.variable(0), ("Version", "1.1"));
    assert_eq!(metadata.variable(1), ("Difficulty", "Hard"));
    assert_eq!(metadata.platform_name(), "Wii");
    assert!(metadata.uses_emulator());
    metadata.clear_variables();
    assert_eq!(metadata.variable_count(), 0);
}
