use livesplit_core::{AtomicDateTime, Attempt, Time, TimeSpan, TimingMethod};

fn span(millis: i64) -> Option<TimeSpan> {
    Some(TimeSpan::from_milliseconds(millis))
}

#[test]
fn zero_is_no_time_at_all() {
    assert_eq!(TimeSpan::zero().total_milliseconds(), 0);
    assert_eq!(TimeSpan::zero(), TimeSpan::from_milliseconds(0));
}

#[test]
fn spans_are_added_and_subtracted() {
    let a = TimeSpan::from_milliseconds(1500);
    let b = TimeSpan::from_milliseconds(-250);
    assert_eq!(a.plus(b).total_milliseconds(), 1250);
    assert_eq!(a.minus(b).total_milliseconds(), 1750);
    assert_eq!(b.minus(a).total_milliseconds(), -1750);
    assert!(b.is_less_than(a));
    assert!(!a.is_less_than(b));
    assert!(!a.is_less_than(a));
}

#[test]
fn checked_arithmetic_tells_what_cannot_be_represented() {
    let max = TimeSpan::from_milliseconds(i64::MAX);
    let min = TimeSpan::from_milliseconds(i64::MIN);
    let one = TimeSpan::from_milliseconds(1);
    assert_eq!(max.checked_plus(one), None);
    assert_eq!(min.checked_minus(one), None);
    assert_eq!(max.checked_minus(one), Some(TimeSpan::from_milliseconds(i64::MAX - 1)));
    assert_eq!(min.checked_plus(one), Some(TimeSpan::from_milliseconds(i64::MIN + 1)));
    assert_eq!(TimeSpan::zero().checked_minus(min), None);
}

#[test]
fn both_timing_methods_in_order() {
    assert_eq!(TimingMethod::all(), [TimingMethod::RealTime, TimingMethod::GameTime]);
}

#[test]
fn a_new_time_is_absent_under_both_methods() {
    let time = Time::new();
    assert_eq!(time.real_time, None);
    assert_eq!(time.game_time, None);
    assert!(time.is_empty());
    assert_eq!(time.get(TimingMethod::RealTime), None);
    assert_eq!(time.get(TimingMethod::GameTime), None);
}

#[test]
fn the_zero_time_is_zero_under_both_methods() {
    let time = Time::zero();
    assert_eq!(time.real_time, span(0));
    assert_eq!(time.game_time, span(0));
    assert!(!time.is_empty());
}

#[test]
fn each_method_is_kept_on_its_own() {
    let time = Time::new().with_real_time(span(10));
    assert_eq!(time.get(TimingMethod::RealTime), span(10));
    assert_eq!(time.get(TimingMethod::GameTime), None);
    assert!(!time.is_empty());
    let time = time.with_timing_method(TimingMethod::GameTime, span(20));
    assert_eq!(time, Time { real_time: span(10), game_time: span(20) });
    let time = time.with_timing_method(TimingMethod::RealTime, None);
    assert_eq!(time, Time::new().with_game_time(span(20)));
    let mut time = time;
    time.set(TimingMethod::RealTime, span(5));
    time.set(TimingMethod::GameTime, None);
    assert_eq!(time, Time::new().with_real_time(span(5)));
}

#[test]
fn times_are_subtracted_method_by_method() {
    let a = Time { real_time: span(100), game_time: span(40) };
    let b = Time { real_time: span(30), game_time: None };
    assert_eq!(a.minus(b), Time { real_time: span(70), game_time: None });
    assert_eq!(b.minus(a), Time { real_time: span(-70), game_time: None });
    assert_eq!(Time::new().minus(a), Time::new());
    assert_eq!(a.minus(Time::zero()), a);
}

#[test]
fn an_attempt_holds_what_it_was_made_of() {
    let started = AtomicDateTime::new(1_000, true);
    let ended = AtomicDateTime::new(61_000, false);
    let time = Time::new().with_real_time(span(60_000));
    let attempt = Attempt::new(3, time, Some(started), Some(ended), span(500));
    assert_eq!(attempt.index(), 3);
    assert_eq!(attempt.time(), time);
    assert_eq!(attempt.started(), Some(started));
    assert_eq!(attempt.ended(), Some(ended));
    assert_eq!(attempt.pause_time(), span(500));
    assert_eq!(started.unix_millis, 1_000);
    assert!(started.synced_with_atomic_clock);
    assert!(!ended.synced_with_atomic_clock);
}
