//! One segment of a run: its split, its best time, its comparisons and its
//! history.

use crate::named::{find, lemma_position_of, lemma_with_value, named, value_of, with_value};
use crate::segment_history::SegmentHistory;
use crate::time::Time;
use vstd::prelude::*;

verus! {

/// The name of the comparison that holds the splits of the personal best.
pub const PERSONAL_BEST: &'static str = "Personal Best";

/// An image, held as the bytes of its file.
pub struct Image {
    data: Vec<u8>,
}

impl View for Image {
    type V = Seq<u8>;

    closed spec fn view(&self) -> Seq<u8> {
        self.data@
    }
}

impl Image {
    /// The image of the given bytes.
    pub fn new(data: Vec<u8>) -> (image: Image)
        ensures
            image@ == data@,
    {
        Image { data }
    }

    /// No image.
    pub fn empty() -> (image: Image)
        ensures
            image@ == Seq::<u8>::empty(),
    {
        Image { data: Vec::new() }
    }

    /// The bytes of the image.
    pub fn data(&self) -> (data: &Vec<u8>)
        ensures
            data@ == self@,
    {
        &self.data
    }

    /// Whether there is no image.
    pub fn is_empty(&self) -> (empty: bool)
        ensures
            empty == (self@.len() == 0),
    {
        self.data.len() == 0
    }
}

/// The time that `comparisons` holds under `name`: that of the first entry
/// of that name, and the absent time where there is none.
pub open spec fn comparison_of(comparisons: Seq<(Seq<char>, Time)>, name: Seq<char>) -> Time {
    match value_of(comparisons, name) {
        Some(time) => time,
        None => Time::none(),
    }
}

/// `comparisons` with `time` under `name`: in place of the first entry of
/// that name, or at the end where there is none.
pub open spec fn with_comparison(
    comparisons: Seq<(Seq<char>, Time)>,
    name: Seq<char>,
    time: Time,
) -> Seq<(Seq<char>, Time)> {
    with_value(comparisons, name, time)
}

/// After `time` was put under `name`, `name` holds `time` and every other
/// name holds what it held.
pub proof fn lemma_with_comparison(
    comparisons: Seq<(Seq<char>, Time)>,
    name: Seq<char>,
    time: Time,
    other: Seq<char>,
)
    ensures
        comparison_of(with_comparison(comparisons, name, time), other) == if other == name {
            time
        } else {
            comparison_of(comparisons, other)
        },
{
    lemma_with_value(comparisons, name, time, other);
}

/// What a segment is, as plain values.
pub struct SegmentView {
    pub name: Seq<char>,
    pub icon: Seq<u8>,
    pub split_time: Time,
    pub best_segment_time: Time,
    /// The comparison times, each under its name.
    pub comparisons: Seq<(Seq<char>, Time)>,
    /// The segment history, from index to time.
    pub history: Map<int, Time>,
}

impl SegmentView {
    /// The time of the comparison `name`.
    pub open spec fn comparison(self, name: Seq<char>) -> Time {
        comparison_of(self.comparisons, name)
    }
}

/// One segment of a run.
pub struct Segment {
    name: String,
    icon: Image,
    split_time: Time,
    best_segment_time: Time,
    comparisons: Vec<(String, Time)>,
    segment_history: SegmentHistory,
}

impl View for Segment {
    type V = SegmentView;

    closed spec fn view(&self) -> SegmentView {
        SegmentView {
            name: self.name@,
            icon: self.icon@,
            split_time: self.split_time,
            best_segment_time: self.best_segment_time,
            comparisons: named(self.comparisons@),
            history: self.segment_history@,
        }
    }
}

impl Segment {
    /// The segment history is well formed.
    pub closed spec fn wf(&self) -> bool {
        self.segment_history.wf()
    }

    /// A segment of the given name, with no times.
    pub fn new(name: &str) -> (segment: Segment)
        ensures
            segment.wf(),
            segment@ == (SegmentView {
                name: name@,
                icon: Seq::empty(),
                split_time: Time::none(),
                best_segment_time: Time::none(),
                comparisons: Seq::empty(),
                history: Map::empty(),
            }),
    {
        let segment = Segment {
            name: name.to_owned(),
            icon: Image::empty(),
            split_time: Time::new(),
            best_segment_time: Time::new(),
            comparisons: Vec::new(),
            segment_history: SegmentHistory::new(),
        };
        proof {
            assert(segment@.comparisons =~= Seq::empty());
        }
        segment
    }

    /// The name of the segment.
    pub fn name(&self) -> (name: &str)
        ensures
            name@ == self@.name,
    {
        self.name.as_str()
    }

    /// Gives the segment another name.
    pub fn set_name(&mut self, name: &str)
        ensures
            final(self)@ == (SegmentView { name: name@, ..old(self)@ }),
            final(self).wf() == old(self).wf(),
    {
        self.name = name.to_owned();
    }

    /// The icon of the segment.
    pub fn icon(&self) -> (icon: &Image)
        ensures
            icon@ == self@.icon,
    {
        &self.icon
    }

    /// Gives the segment another icon.
    pub fn set_icon(&mut self, icon: Image)
        ensures
            final(self)@ == (SegmentView { icon: icon@, ..old(self)@ }),
            final(self).wf() == old(self).wf(),
    {
        self.icon = icon;
    }

    /// The split time of the current attempt.
    pub fn split_time(&self) -> (time: Time)
        ensures
            time == self@.split_time,
    {
        self.split_time
    }

    /// Sets the split time of the current attempt.
    pub fn set_split_time(&mut self, time: Time)
        ensures
            final(self)@ == (SegmentView { split_time: time, ..old(self)@ }),
            final(self).wf() == old(self).wf(),
    {
        self.split_time = time;
    }

    /// The best time that the segment was ever done in.
    pub fn best_segment_time(&self) -> (time: Time)
        ensures
            time == self@.best_segment_time,
    {
        self.best_segment_time
    }

    /// Sets the best time that the segment was ever done in.
    pub fn set_best_segment_time(&mut self, time: Time)
        ensures
            final(self)@ == (SegmentView { best_segment_time: time, ..old(self)@ }),
            final(self).wf() == old(self).wf(),
    {
        self.best_segment_time = time;
    }

    /// The time of the comparison `name`; the absent time where the segment
    /// has none under that name.
    pub fn comparison(&self, name: &str) -> (time: Time)
        ensures
            time == self@.comparison(name@),
    {
        let position = find(&self.comparisons, name);
        if position < self.comparisons.len() {
            self.comparisons[position].1
        } else {
            Time::new()
        }
    }

    /// Sets the time of the comparison `name`.
    pub fn set_comparison(&mut self, name: &str, time: Time)
        ensures
            final(self)@ == (SegmentView {
                comparisons: with_comparison(old(self)@.comparisons, name@, time),
                ..old(self)@
            }),
            final(self).wf() == old(self).wf(),
    {
        let ghost all = self@.comparisons;
        let position = find(&self.comparisons, name);
        if position < self.comparisons.len() {
            proof {
                lemma_position_of(all, name@);
            }
            self.comparisons[position].1 = time;
            proof {
                assert(self@.comparisons =~= all.update(position as int, (name@, time)));
            }
        } else {
            self.comparisons.push((name.to_owned(), time));
            proof {
                assert(self@.comparisons =~= all.push((name@, time)));
            }
        }
    }

    /// The split time of the personal best.
    pub fn personal_best_split_time(&self) -> (time: Time)
        ensures
            time == self@.comparison(PERSONAL_BEST@),
    {
        self.comparison(PERSONAL_BEST)
    }

    /// Sets the split time of the personal best.
    pub fn set_personal_best_split_time(&mut self, time: Time)
        ensures
            final(self)@ == (SegmentView {
                comparisons: with_comparison(old(self)@.comparisons, PERSONAL_BEST@, time),
                ..old(self)@
            }),
            final(self).wf() == old(self).wf(),
    {
        self.set_comparison(PERSONAL_BEST, time);
    }

    /// Removes every comparison time.
    pub fn clear_comparisons(&mut self)
        ensures
            final(self)@ == (SegmentView { comparisons: Seq::empty(), ..old(self)@ }),
            final(self).wf() == old(self).wf(),
    {
        self.comparisons.clear();
        proof {
            assert(self@.comparisons =~= Seq::empty());
        }
    }

    /// The segment history.
    pub fn segment_history(&self) -> (history: &SegmentHistory)
        ensures
            history@ == self@.history,
            history.wf() == self.wf(),
    {
        &self.segment_history
    }

    /// The segment history, to be changed.
    pub fn segment_history_mut(&mut self) -> (history: &mut SegmentHistory)
        ensures
            history@ == old(self)@.history,
            history.wf() == old(self).wf(),
            final(self)@ == (SegmentView { history: final(history)@, ..old(self)@ }),
            final(self).wf() == final(history).wf(),
    {
        &mut self.segment_history
    }
}

/// The segments as plain values.
pub open spec fn views(segments: Seq<Segment>) -> Seq<SegmentView> {
    Seq::new(segments.len(), |i: int| segments[i]@)
}

/// Whether every segment is well formed.
pub open spec fn all_wf(segments: Seq<Segment>) -> bool {
    forall|i: int| 0 <= i < segments.len() ==> (#[trigger] segments[i]).wf()
}

} // verus!
