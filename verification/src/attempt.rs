//! The record of one attempt of a run.

use crate::time::{Time, TimeSpan};
use vstd::prelude::*;

verus! {

/// A point in time, with a note of whether the clock that gave it was
/// synchronized with an atomic clock.
#[derive(Clone, Copy, Debug, PartialEq, Eq, Structural, Hash)]
pub struct AtomicDateTime {
    /// Milliseconds since the start of 1970, in UTC.
    pub unix_millis: i64,
    /// Whether the clock was synchronized with an atomic clock.
    pub synced_with_atomic_clock: bool,
}

impl AtomicDateTime {
    /// A point in time.
    pub fn new(unix_millis: i64, synced_with_atomic_clock: bool) -> (date_time: AtomicDateTime)
        ensures
            date_time == (AtomicDateTime { unix_millis, synced_with_atomic_clock }),
    {
        AtomicDateTime { unix_millis, synced_with_atomic_clock }
    }
}

/// One attempt of a run: its index, the time it ended with, when it started
/// and ended, and for how long it was paused.
#[derive(Clone, Copy, Debug, PartialEq, Eq, Structural, Hash)]
pub struct Attempt {
    pub index: i32,
    pub time: Time,
    pub started: Option<AtomicDateTime>,
    pub ended: Option<AtomicDateTime>,
    pub pause_time: Option<TimeSpan>,
}

impl Attempt {
    /// An attempt with the given index and values.
    pub fn new(
        index: i32,
        time: Time,
        started: Option<AtomicDateTime>,
        ended: Option<AtomicDateTime>,
        pause_time: Option<TimeSpan>,
    ) -> (attempt: Attempt)
        ensures
            attempt == (Attempt { index, time, started, ended, pause_time }),
    {
        Attempt { index, time, started, ended, pause_time }
    }

    /// The index of the attempt. The entries of the segment histories that
    /// belong to this attempt stand at the same index.
    pub fn index(&self) -> (index: i32)
        ensures
            index == self.index,
    {
        self.index
    }

    /// The time that the attempt ended with.
    pub fn time(&self) -> (time: Time)
        ensures
            time == self.time,
    {
        self.time
    }

    /// When the attempt started.
    pub fn started(&self) -> (started: Option<AtomicDateTime>)
        ensures
            started == self.started,
    {
        self.started
    }

    /// When the attempt ended.
    pub fn ended(&self) -> (ended: Option<AtomicDateTime>)
        ensures
            ended == self.ended,
    {
        self.ended
    }

    /// For how long the attempt was paused.
    pub fn pause_time(&self) -> (pause_time: Option<TimeSpan>)
        ensures
            pause_time == self.pause_time,
    {
        self.pause_time
    }
}

/// The highest index of `attempts`, if there is an attempt.
pub open spec fn max_index(attempts: Seq<Attempt>) -> Option<int>
    decreases attempts.len(),
{
    if attempts.len() == 0 {
        None
    } else {
        let last = attempts.last().index as int;
        match max_index(attempts.drop_last()) {
            Some(m) if m >= last => Some(m),
            _ => Some(last),
        }
    }
}

/// The index that the next attempt is given: one above the highest index
/// so far, and 1 at least.
pub open spec fn next_index(attempts: Seq<Attempt>) -> int {
    match max_index(attempts) {
        Some(m) if m >= 0 => m + 1,
        _ => 1,
    }
}

/// Whether each attempt of `attempts` has the index that it was given when
/// it was added after those before it.
pub open spec fn indices_allocated(attempts: Seq<Attempt>) -> bool {
    forall|i: int|
        0 <= i < attempts.len() ==> (#[trigger] attempts[i]).index == next_index(attempts.take(i))
}

/// Whether no two attempts of `attempts` have the same index.
pub open spec fn indices_distinct(attempts: Seq<Attempt>) -> bool {
    forall|i: int, j: int|
        0 <= i < j < attempts.len() ==> (#[trigger] attempts[i]).index != (
        #[trigger] attempts[j]).index
}

/// Whether some attempt of `attempts` has the index `index`.
pub open spec fn has_index(attempts: Seq<Attempt>, index: int) -> bool {
    exists|i: int| 0 <= i < attempts.len() && (#[trigger] attempts[i]).index == index
}

/// An attempt with an index that no attempt has can join the attempts.
pub proof fn lemma_distinct_push(attempts: Seq<Attempt>, attempt: Attempt)
    requires
        indices_distinct(attempts),
        !has_index(attempts, attempt.index as int),
    ensures
        indices_distinct(attempts.push(attempt)),
{
    let longer = attempts.push(attempt);
    assert forall|i: int, j: int| 0 <= i < j < longer.len() implies (#[trigger] longer[i]).index != (
    #[trigger] longer[j]).index by {
        assert(longer[i] == attempts[i]);
        if j < attempts.len() {
            assert(longer[j] == attempts[j]);
        }
    }
}

/// No attempt has the index that the next attempt is given.
pub proof fn lemma_next_index_is_free(attempts: Seq<Attempt>)
    ensures
        !has_index(attempts, next_index(attempts)),
{
    lemma_max_index(attempts);
}

/// The highest index is the index of some attempt, and no attempt has a
/// higher one.
pub proof fn lemma_max_index(attempts: Seq<Attempt>)
    ensures
        attempts.len() == 0 <==> max_index(attempts) is None,
        max_index(attempts) matches Some(m) ==> {
            &&& exists|i: int| 0 <= i < attempts.len() && (#[trigger] attempts[i]).index == m
            &&& forall|i: int| 0 <= i < attempts.len() ==> (#[trigger] attempts[i]).index <= m
        },
    decreases attempts.len(),
{
    if attempts.len() > 0 {
        let front = attempts.drop_last();
        lemma_max_index(front);
        let m = max_index(attempts)->0;
        let last = attempts.last().index as int;
        if m == last {
            assert(attempts[attempts.len() - 1].index == m);
        } else {
            let i = choose|i: int| 0 <= i < front.len() && (#[trigger] front[i]).index == m;
            assert(attempts[i] == front[i]);
        }
        assert forall|i: int| 0 <= i < attempts.len() implies (#[trigger] attempts[i]).index
            <= m by {
            if i < front.len() {
                assert(attempts[i] == front[i]);
            }
        }
    }
}

/// Attempts that were each given their index when they were added, the
/// first of them to an empty history, are numbered 1, 2, 3 and so on, in the
/// order in which they were added.
pub proof fn lemma_indices_count_up(attempts: Seq<Attempt>)
    requires
        indices_allocated(attempts),
    ensures
        forall|i: int| 0 <= i < attempts.len() ==> (#[trigger] attempts[i]).index == i + 1,
        next_index(attempts) == attempts.len() + 1,
    decreases attempts.len(),
{
    if attempts.len() == 0 {
    } else {
        let front = attempts.drop_last();
        assert forall|i: int| 0 <= i < front.len() implies (#[trigger] front[i]).index
            == next_index(front.take(i)) by {
            assert(front[i] == attempts[i]);
            assert(front.take(i) =~= attempts.take(i));
        }
        lemma_indices_count_up(front);
        let n = attempts.len() - 1;
        assert(attempts.take(n) =~= front);
        assert(attempts[n].index == next_index(front));
        assert forall|i: int| 0 <= i < attempts.len() implies (#[trigger] attempts[i]).index == i
            + 1 by {
            if i < n {
                assert(attempts[i] == front[i]);
            }
        }
        lemma_max_index(front);
        assert(max_index(attempts) == Some(n + 1));
    }
}

/// The highest index of `attempts`, if there is an attempt.
pub fn max_attempt_index(attempts: &Vec<Attempt>) -> (index: Option<i32>)
    ensures
        match index {
            Some(m) => max_index(attempts@) == Some(m as int),
            None => max_index(attempts@) is None,
        },
{
    let mut highest: Option<i32> = None;
    let mut i: usize = 0;
    proof {
        assert(attempts@.take(0) =~= Seq::empty());
    }
    while i < attempts.len()
        invariant
            i <= attempts@.len(),
            match highest {
                Some(m) => max_index(attempts@.take(i as int)) == Some(m as int),
                None => max_index(attempts@.take(i as int)) is None,
            },
        decreases attempts@.len() - i,
    {
        let index: i32 = attempts[i].index();
        proof {
            assert(attempts@.take(i + 1).drop_last() =~= attempts@.take(i as int));
            assert(attempts@.take(i + 1).last() == attempts@[i as int]);
        }
        highest = match highest {
            Some(m) => if m >= index {
                Some(m)
            } else {
                Some(index)
            },
            None => Some(index),
        };
        i += 1;
    }
    proof {
        assert(attempts@.take(i as int) =~= attempts@);
    }
    highest
}

} // verus!
