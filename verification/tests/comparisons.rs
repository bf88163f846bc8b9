use livesplit_core::comparison::BlankComparison;
use livesplit_core::generators::ComparisonGenerators;
use livesplit_core::{ComparisonGenerator, Run, Segment, Time, TimeSpan};

fn real_time(millis: i64) -> Time {
    Time::new().with_real_time(Some(TimeSpan::from_milliseconds(millis)))
}

fn names_of(run: &Run) -> Vec<String> {
    let mut iter = run.comparisons();
    let mut names = Vec::new();
    while let Some(name) = iter.next() {
        names.push(name.to_string());
    }
    names
}

#[test]
fn a_new_run_has_the_personal_best_alone() {
    let run = Run::new();
    assert_eq!(names_of(&run), vec!["Personal Best"]);
    assert_eq!(run.custom_comparisons().len(), 1);
    assert_eq!(run.custom_comparisons()[0], "Personal Best");
    assert_eq!(run.comparison_generators().len(), 0);
}

#[test]
fn comparisons_come_custom_first_then_generated() {
    let mut run = Run::new();
    run.add_custom_comparison("Race");
    run.add_custom_comparison("World Record");
    run.comparison_generators_mut().push(Box::new(BlankComparison::new("None")));
    run.comparison_generators_mut().push(Box::new(BlankComparison::new("Average")));
    let names = names_of(&run);
    assert_eq!(names, vec!["Personal Best", "Race", "World Record", "None", "Average"]);
    assert_eq!(
        names.len(),
        run.custom_comparisons().len() + run.comparison_generators().len()
    );
}

#[test]
fn the_size_hint_counts_what_is_left() {
    let mut run = Run::new();
    run.add_custom_comparison("Race");
    run.comparison_generators_mut().push(Box::new(BlankComparison::new("None")));
    let mut iter = run.comparisons();
    assert_eq!(iter.size_hint(), (3, Some(3)));
    assert_eq!(iter.next(), Some("Personal Best"));
    assert_eq!(iter.size_hint(), (2, Some(2)));
    assert_eq!(iter.next(), Some("Race"));
    assert_eq!(iter.next(), Some("None"));
    assert_eq!(iter.size_hint(), (0, Some(0)));
    assert_eq!(iter.next(), None);
    assert_eq!(iter.next(), None);
    assert_eq!(iter.size_hint(), (0, Some(0)));
}

#[test]
fn a_custom_comparison_is_added_once() {
    let mut run = Run::new();
    run.add_custom_comparison("Race");
    run.add_custom_comparison("Race");
    run.add_custom_comparison("Personal Best");
    run.add_custom_comparison("race");
    assert_eq!(names_of(&run), vec!["Personal Best", "Race", "race"]);
}

#[test]
fn custom_comparisons_can_be_changed_in_place() {
    let mut run = Run::new();
    run.custom_comparisons_mut().push("Race".to_string());
    assert_eq!(names_of(&run), vec!["Personal Best", "Race"]);
}

#[test]
fn regenerate_comparisons_writes_only_the_generated_comparisons() {
    let mut run = Run::new();
    run.push_segment(Segment::new("A"));
    run.push_segment(Segment::new("B"));
    run.segment_mut(0).set_comparison("None", real_time(7));
    run.segment_mut(0).set_comparison("Race", real_time(8));
    run.segment_mut(1).set_personal_best_split_time(real_time(500));
    run.segment_mut(1).set_best_segment_time(real_time(100));
    run.segment_mut(1).segment_history_mut().insert(1, real_time(120));
    run.comparison_generators_mut().push(Box::new(BlankComparison::new("None")));
    run.comparison_generators_mut().push(Box::new(BlankComparison::new("Empty")));
    run.regenerate_comparisons();
    assert_eq!(run.len(), 2);
    assert_eq!(run.segment(0).comparison("None"), Time::new());
    assert_eq!(run.segment(1).comparison("None"), Time::new());
    assert_eq!(run.segment(0).comparison("Empty"), Time::new());
    assert_eq!(run.segment(0).comparison("Race"), real_time(8));
    assert_eq!(run.segment(0).personal_best_split_time(), Time::new());
    assert_eq!(run.segment(1).personal_best_split_time(), real_time(500));
    assert_eq!(run.segment(1).best_segment_time(), real_time(100));
    assert_eq!(run.segment(1).segment_history().get(1), Some(real_time(120)));
    assert_eq!(names_of(&run), vec!["Personal Best", "None", "Empty"]);
}

#[test]
fn generators_are_named_in_the_order_of_registration() {
    let mut run = Run::new();
    run.comparison_generators_mut().push(Box::new(BlankComparison::new("Two")));
    run.comparison_generators_mut().push(Box::new(BlankComparison::new("One")));
    let generators = run.comparison_generators();
    assert_eq!(generators[0].name(), "Two");
    assert_eq!(generators[1].name(), "One");
}

fn generators(names: &[&str]) -> ComparisonGenerators {
    let mut list: Vec<Box<dyn ComparisonGenerator>> = Vec::new();
    for name in names {
        list.push(Box::new(BlankComparison::new(name)));
    }
    ComparisonGenerators(list)
}

#[test]
fn generator_lists_are_equal_by_their_names() {
    assert!(generators(&[]) == generators(&[]));
    assert!(generators(&["None", "Average"]) == generators(&["None", "Average"]));
    assert!(generators(&["None", "Average"]) != generators(&["Average", "None"]));
    assert!(generators(&["None"]) != generators(&["None", "None"]));
    assert!(generators(&["None"]) != generators(&["none"]));
}

#[test]
fn a_blank_comparison_has_no_times() {
    let mut generator = BlankComparison::new("None");
    assert_eq!(generator.name(), "None");
    let mut first = Segment::new("A");
    first.set_comparison("None", real_time(5));
    first.set_comparison("Race", real_time(6));
    first.set_split_time(real_time(7));
    let mut segments = vec![first, Segment::new("B")];
    generator.generate(&mut segments, &Vec::new());
    assert_eq!(segments.len(), 2);
    assert_eq!(segments[0].comparison("None"), Time::new());
    assert_eq!(segments[1].comparison("None"), Time::new());
    assert_eq!(segments[0].comparison("Race"), real_time(6));
    assert_eq!(segments[0].split_time(), real_time(7));
    assert_eq!(generator.name(), "None");
}
