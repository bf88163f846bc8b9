//! Durations, timing methods and the pair of times that a split carries.

use vstd::prelude::*;

verus! {

/// A signed duration, counted in whole milliseconds.
#[derive(Clone, Copy, Debug, PartialEq, Eq, Structural, Hash)]
pub struct TimeSpan {
    pub millis: i64,
}

impl TimeSpan {
    /// The duration of no time at all.
    pub fn zero() -> (span: TimeSpan)
        ensures
            span.millis == 0,
    {
        TimeSpan { millis: 0 }
    }

    /// The duration of the given number of milliseconds.
    pub fn from_milliseconds(millis: i64) -> (span: TimeSpan)
        ensures
            span.millis == millis,
    {
        TimeSpan { millis }
    }

    /// The duration as a number of milliseconds.
    pub fn total_milliseconds(self) -> (millis: i64)
        ensures
            millis == self.millis,
    {
        self.millis
    }

    /// Whether the duration is shorter than `other`.
    pub fn is_less_than(self, other: TimeSpan) -> (less: bool)
        ensures
            less == (self.millis < other.millis),
    {
        self.millis < other.millis
    }

    /// Whether `self - other` is a duration that can be represented.
    pub open spec fn can_subtract(self, other: TimeSpan) -> bool {
        i64::MIN <= self.millis - other.millis <= i64::MAX
    }

    /// Whether `self + other` is a duration that can be represented.
    pub open spec fn can_add(self, other: TimeSpan) -> bool {
        i64::MIN <= self.millis + other.millis <= i64::MAX
    }

    /// The sum of two durations.
    pub fn plus(self, other: TimeSpan) -> (span: TimeSpan)
        requires
            self.can_add(other),
        ensures
            span.millis == self.millis + other.millis,
    {
        TimeSpan { millis: self.millis + other.millis }
    }

    /// The difference of two durations.
    pub fn minus(self, other: TimeSpan) -> (span: TimeSpan)
        requires
            self.can_subtract(other),
        ensures
            span.millis == self.millis - other.millis,
    {
        TimeSpan { millis: self.millis - other.millis }
    }

    /// The sum of two durations, or `None` where it cannot be represented.
    pub fn checked_plus(self, other: TimeSpan) -> (span: Option<TimeSpan>)
        ensures
            span.is_some() == self.can_add(other),
            span matches Some(s) ==> s.millis == self.millis + other.millis,
    {
        match self.millis.checked_add(other.millis) {
            Some(millis) => Some(TimeSpan { millis }),
            None => None,
        }
    }

    /// The difference of two durations, or `None` where it cannot be
    /// represented.
    pub fn checked_minus(self, other: TimeSpan) -> (span: Option<TimeSpan>)
        ensures
            span.is_some() == self.can_subtract(other),
            span matches Some(s) ==> s.millis == self.millis - other.millis,
    {
        match self.millis.checked_sub(other.millis) {
            Some(millis) => Some(TimeSpan { millis }),
            None => None,
        }
    }
}

/// The clock that a time was measured with.
#[derive(Clone, Copy, Debug, PartialEq, Eq, Structural, Hash)]
pub enum TimingMethod {
    /// Wall-clock time.
    RealTime,
    /// The time of the game's own clock.
    GameTime,
}

impl TimingMethod {
    /// Both timing methods, in the order in which a run is worked through.
    pub fn all() -> (methods: [TimingMethod; 2])
        ensures
            methods@ == seq![TimingMethod::RealTime, TimingMethod::GameTime],
    {
        let methods = [TimingMethod::RealTime, TimingMethod::GameTime];
        assert(methods@ =~= seq![TimingMethod::RealTime, TimingMethod::GameTime]);
        methods
    }
}

/// A time under both timing methods. Each is kept on its own and may be
/// absent.
#[derive(Clone, Copy, Debug, PartialEq, Eq, Structural, Hash)]
pub struct Time {
    pub real_time: Option<TimeSpan>,
    pub game_time: Option<TimeSpan>,
}

impl Time {
    /// The time under `method`.
    pub open spec fn at(self, method: TimingMethod) -> Option<TimeSpan> {
        match method {
            TimingMethod::RealTime => self.real_time,
            TimingMethod::GameTime => self.game_time,
        }
    }

    /// This time with the time under `method` replaced by `span`.
    pub open spec fn with(self, method: TimingMethod, span: Option<TimeSpan>) -> Time {
        match method {
            TimingMethod::RealTime => Time { real_time: span, ..self },
            TimingMethod::GameTime => Time { game_time: span, ..self },
        }
    }

    /// The time that is absent under both methods.
    pub open spec fn none() -> Time {
        Time { real_time: None, game_time: None }
    }

    /// Whether the time is absent under both methods.
    pub open spec fn is_none(self) -> bool {
        self.real_time is None && self.game_time is None
    }

    /// Whether each method's difference `self - other` can be represented,
    /// where both times have that method.
    pub open spec fn can_subtract(self, other: Time) -> bool {
        &&& self.real_time is Some && other.real_time is Some ==> self.real_time->0.can_subtract(
            other.real_time->0,
        )
        &&& self.game_time is Some && other.game_time is Some ==> self.game_time->0.can_subtract(
            other.game_time->0,
        )
    }

    /// The difference of two optional durations: absent where either is.
    pub open spec fn span_difference(a: Option<TimeSpan>, b: Option<TimeSpan>) -> Option<
        TimeSpan,
    > {
        match (a, b) {
            (Some(a), Some(b)) => Some(TimeSpan { millis: (a.millis - b.millis) as i64 }),
            _ => None,
        }
    }

    /// The difference `self - other`, method by method.
    pub open spec fn difference(self, other: Time) -> Time {
        Time {
            real_time: Time::span_difference(self.real_time, other.real_time),
            game_time: Time::span_difference(self.game_time, other.game_time),
        }
    }

    /// A time that is absent under both methods.
    pub fn new() -> (time: Time)
        ensures
            time == Time::none(),
    {
        Time { real_time: None, game_time: None }
    }

    /// The time that is zero under both methods.
    pub fn zero() -> (time: Time)
        ensures
            time.real_time == Some(TimeSpan { millis: 0 }),
            time.game_time == Some(TimeSpan { millis: 0 }),
    {
        Time { real_time: Some(TimeSpan::zero()), game_time: Some(TimeSpan::zero()) }
    }

    /// This time with the real time replaced.
    pub fn with_real_time(self, real_time: Option<TimeSpan>) -> (time: Time)
        ensures
            time == self.with(TimingMethod::RealTime, real_time),
    {
        Time { real_time, game_time: self.game_time }
    }

    /// This time with the game time replaced.
    pub fn with_game_time(self, game_time: Option<TimeSpan>) -> (time: Time)
        ensures
            time == self.with(TimingMethod::GameTime, game_time),
    {
        Time { real_time: self.real_time, game_time }
    }

    /// This time with the time under `method` replaced.
    pub fn with_timing_method(self, method: TimingMethod, span: Option<TimeSpan>) -> (time: Time)
        ensures
            time == self.with(method, span),
    {
        match method {
            TimingMethod::RealTime => self.with_real_time(span),
            TimingMethod::GameTime => self.with_game_time(span),
        }
    }

    /// The time under `method`.
    pub fn get(self, method: TimingMethod) -> (span: Option<TimeSpan>)
        ensures
            span == self.at(method),
    {
        match method {
            TimingMethod::RealTime => self.real_time,
            TimingMethod::GameTime => self.game_time,
        }
    }

    /// Replaces the time under `method`.
    pub fn set(&mut self, method: TimingMethod, span: Option<TimeSpan>)
        ensures
            *final(self) == old(self).with(method, span),
    {
        match method {
            TimingMethod::RealTime => self.real_time = span,
            TimingMethod::GameTime => self.game_time = span,
        }
    }

    /// Whether the time is absent under both methods.
    pub fn is_empty(self) -> (empty: bool)
        ensures
            empty == self.is_none(),
    {
        self.real_time.is_none() && self.game_time.is_none()
    }

    /// The difference `self - other`, method by method; a method that either
    /// time lacks is absent in the result.
    pub fn minus(self, other: Time) -> (time: Time)
        requires
            self.can_subtract(other),
        ensures
            time == self.difference(other),
    {
        let real_time = match (self.real_time, other.real_time) {
            (Some(a), Some(b)) => Some(a.minus(b)),
            _ => None,
        };
        let game_time = match (self.game_time, other.game_time) {
            (Some(a), Some(b)) => Some(a.minus(b)),
            _ => None,
        };
        Time { real_time, game_time }
    }
}

} // verus!
