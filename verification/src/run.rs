//! A run: the splits of one game and category, with the history of its
//! attempts.

use crate::attempt::{
    has_index, indices_distinct, lemma_distinct_push, lemma_next_index_is_free, max_attempt_index,
    max_index, next_index, AtomicDateTime, Attempt,
};
use crate::comparison::{
    differs_in_comparison, generator_names, regenerated, ComparisonGenerator, ComparisonsIter,
};
use crate::generators::ComparisonGenerators;
use crate::import::{
    durations_fit, durations_fit_before, personal_best_times, split_times,
    with_imported_best_segment, with_imported_personal_best, with_segment_times,
};
use crate::naming::{
    extended, extension_values, file_name_of, full_name, join_names, to_file_name,
};
use crate::reconcile::{is_min_history_index, min_history_index};
use crate::run_metadata::{RunMetadata, RunMetadataView};
use crate::segment::{all_wf, views, Image, Segment, SegmentView, PERSONAL_BEST};
use crate::text::names;
use crate::time::{Time, TimeSpan, TimingMethod};
use std::borrow::Cow;
use std::path::PathBuf;
use vstd::prelude::*;

verus! {

/// What a run is, as plain values.
pub struct RunView {
    pub game_icon: Seq<u8>,
    pub game_name: Seq<char>,
    pub category_name: Seq<char>,
    pub offset: TimeSpan,
    pub attempt_count: u32,
    pub attempt_history: Seq<Attempt>,
    pub metadata: RunMetadataView,
    pub has_changed: bool,
    pub path: Option<PathBuf>,
    /// The segments, in the order of the run.
    pub segments: Seq<SegmentView>,
    /// The names of the custom comparisons, in the order in which they
    /// were added.
    pub custom_comparisons: Seq<Seq<char>>,
    /// The comparison generators, in the order in which they were
    /// registered.
    pub comparison_generators: Seq<Box<dyn ComparisonGenerator>>,
    pub auto_splitter_settings: Seq<u8>,
}

/// The names among `comparisons` that are the name of the personal best.
pub open spec fn personal_best_only(comparisons: Seq<Seq<char>>) -> Seq<Seq<char>>
    decreases comparisons.len(),
{
    if comparisons.len() == 0 {
        Seq::empty()
    } else if comparisons.last() == PERSONAL_BEST@ {
        personal_best_only(comparisons.drop_last()).push(comparisons.last())
    } else {
        personal_best_only(comparisons.drop_last())
    }
}

/// `segment` without history.
pub open spec fn without_history(segment: SegmentView) -> SegmentView {
    SegmentView { history: Map::empty(), ..segment }
}

/// `segment` without history, comparison times and best segment time.
pub open spec fn without_times(segment: SegmentView) -> SegmentView {
    SegmentView {
        history: Map::empty(),
        comparisons: Seq::empty(),
        best_segment_time: Time::none(),
        ..segment
    }
}

/// Whether `after` differs from `before` at most in the times of the
/// comparisons that `generators` name.
pub open spec fn differs_in_generated(
    before: SegmentView,
    after: SegmentView,
    generators: Seq<Seq<char>>,
) -> bool {
    &&& after.name == before.name
    &&& after.icon == before.icon
    &&& after.split_time == before.split_time
    &&& after.best_segment_time == before.best_segment_time
    &&& after.history == before.history
    &&& forall|other: Seq<char>|
        !generators.contains(other) ==> #[trigger] after.comparison(other) == before.comparison(
            other,
        )
}

/// A run.
pub struct Run {
    game_icon: Image,
    game_name: String,
    category_name: String,
    offset: TimeSpan,
    attempt_count: u32,
    attempt_history: Vec<Attempt>,
    metadata: RunMetadata,
    has_changed: bool,
    path: Option<PathBuf>,
    segments: Vec<Segment>,
    custom_comparisons: Vec<String>,
    comparison_generators: ComparisonGenerators,
    auto_splitter_settings: Vec<u8>,
}

impl View for Run {
    type V = RunView;

    closed spec fn view(&self) -> RunView {
        RunView {
            game_icon: self.game_icon@,
            game_name: self.game_name@,
            category_name: self.category_name@,
            offset: self.offset,
            attempt_count: self.attempt_count,
            attempt_history: self.attempt_history@,
            metadata: self.metadata@,
            has_changed: self.has_changed,
            path: self.path,
            segments: views(self.segments@),
            custom_comparisons: names(self.custom_comparisons@),
            comparison_generators: self.comparison_generators.0@,
            auto_splitter_settings: self.auto_splitter_settings@,
        }
    }
}

impl Run {
    /// Every segment is well formed.
    pub closed spec fn segments_wf(&self) -> bool {
        all_wf(self.segments@)
    }

    /// Every segment is well formed, and no two attempts have the same
    /// index.
    pub open spec fn wf(&self) -> bool {
        self.segments_wf() && indices_distinct(self@.attempt_history)
    }

    /// A run without segments. Its only comparison is the personal best.
    pub fn new() -> (run: Run)
        ensures
            run.wf(),
            run@ == (RunView {
                game_icon: Seq::empty(),
                game_name: Seq::empty(),
                category_name: Seq::empty(),
                offset: TimeSpan { millis: 0 },
                attempt_count: 0,
                attempt_history: Seq::empty(),
                metadata: RunMetadataView {
                    run_id: Seq::empty(),
                    platform_name: Seq::empty(),
                    uses_emulator: false,
                    region_name: Seq::empty(),
                    variables: Seq::empty(),
                },
                has_changed: false,
                path: None,
                segments: Seq::empty(),
                custom_comparisons: seq![PERSONAL_BEST@],
                comparison_generators: Seq::empty(),
                auto_splitter_settings: Seq::empty(),
            }),
    {
        let mut custom_comparisons: Vec<String> = Vec::new();
        custom_comparisons.push(PERSONAL_BEST.to_owned());
        let run = Run {
            game_icon: Image::empty(),
            game_name: String::new(),
            category_name: String::new(),
            offset: TimeSpan::zero(),
            attempt_count: 0,
            attempt_history: Vec::new(),
            metadata: RunMetadata::new(),
            has_changed: false,
            path: None,
            segments: Vec::new(),
            custom_comparisons,
            comparison_generators: ComparisonGenerators(Vec::new()),
            auto_splitter_settings: Vec::new(),
        };
        proof {
            assert(run@.segments =~= Seq::empty());
            assert(run@.custom_comparisons =~= seq![PERSONAL_BEST@]);
            assert(run@.comparison_generators =~= Seq::empty());
        }
        run
    }

    /// The name of the game.
    pub fn game_name(&self) -> (name: &str)
        ensures
            name@ == self@.game_name,
    {
        self.game_name.as_str()
    }

    /// Sets the name of the game.
    pub fn set_game_name(&mut self, name: &str)
        ensures
            final(self)@ == (RunView { game_name: name@, ..old(self)@ }),
            final(self).wf() == old(self).wf(),
    {
        self.game_name = name.to_owned();
    }

    /// The icon of the game.
    pub fn game_icon(&self) -> (icon: &Image)
        ensures
            icon@ == self@.game_icon,
    {
        &self.game_icon
    }

    /// Sets the icon of the game.
    pub fn set_game_icon(&mut self, image: Image)
        ensures
            final(self)@ == (RunView { game_icon: image@, ..old(self)@ }),
            final(self).wf() == old(self).wf(),
    {
        self.game_icon = image;
    }

    /// The name of the category.
    pub fn category_name(&self) -> (name: &str)
        ensures
            name@ == self@.category_name,
    {
        self.category_name.as_str()
    }

    /// Sets the name of the category.
    pub fn set_category_name(&mut self, name: &str)
        ensures
            final(self)@ == (RunView { category_name: name@, ..old(self)@ }),
            final(self).wf() == old(self).wf(),
    {
        self.category_name = name.to_owned();
    }

    /// The path of the file that holds the splits, if there is one.
    pub fn path(&self) -> (path: &Option<PathBuf>)
        ensures
            *path == self@.path,
    {
        &self.path
    }

    /// Sets the path of the file that holds the splits.
    pub fn set_path(&mut self, path: Option<PathBuf>)
        ensures
            final(self)@ == (RunView { path, ..old(self)@ }),
            final(self).wf() == old(self).wf(),
    {
        self.path = path;
    }

    /// How many attempts were started.
    pub fn attempt_count(&self) -> (count: u32)
        ensures
            count == self@.attempt_count,
    {
        self.attempt_count
    }

    /// Sets how many attempts were started.
    pub fn set_attempt_count(&mut self, attempts: u32)
        ensures
            final(self)@ == (RunView { attempt_count: attempts, ..old(self)@ }),
            final(self).wf() == old(self).wf(),
    {
        self.attempt_count = attempts;
    }

    /// The metadata of the run.
    pub fn metadata(&self) -> (metadata: &RunMetadata)
        ensures
            metadata@ == self@.metadata,
    {
        &self.metadata
    }

    /// The metadata of the run, to be changed.
    pub fn metadata_mut(&mut self) -> (metadata: &mut RunMetadata)
        ensures
            metadata@ == old(self)@.metadata,
            final(self)@ == (RunView { metadata: final(metadata)@, ..old(self)@ }),
            final(self).wf() == old(self).wf(),
    {
        &mut self.metadata
    }

    /// Sets the time at which an attempt starts.
    pub fn set_offset(&mut self, offset: TimeSpan)
        ensures
            final(self)@ == (RunView { offset, ..old(self)@ }),
            final(self).wf() == old(self).wf(),
    {
        self.offset = offset;
    }

    /// The time at which an attempt starts.
    pub fn offset(&self) -> (offset: TimeSpan)
        ensures
            offset == self@.offset,
    {
        self.offset
    }

    /// Counts one more attempt and marks the run as changed.
    pub fn start_next_run(&mut self)
        requires
            old(self)@.attempt_count < u32::MAX,
        ensures
            final(self)@ == (RunView {
                attempt_count: (old(self)@.attempt_count + 1) as u32,
                has_changed: true,
                ..old(self)@
            }),
            final(self).wf() == old(self).wf(),
    {
        self.attempt_count += 1;
        self.has_changed = true;
    }

    /// The segments.
    pub fn segments(&self) -> (segments: &[Segment])
        ensures
            views(segments@) == self@.segments,
            all_wf(segments@) == self.segments_wf(),
    {
        self.segments.as_slice()
    }

    /// The segments, to be changed.
    pub fn segments_mut(&mut self) -> (segments: &mut Vec<Segment>)
        ensures
            views(segments@) == old(self)@.segments,
            all_wf(segments@) == old(self).segments_wf(),
            final(self)@ == (RunView { segments: views(final(segments)@), ..old(self)@ }),
            final(self).segments_wf() == all_wf(final(segments)@),
    {
        &mut self.segments
    }

    /// Puts a segment at the end of the run.
    pub fn push_segment(&mut self, segment: Segment)
        ensures
            final(self)@ == (RunView {
                segments: old(self)@.segments.push(segment@),
                ..old(self)@
            }),
            final(self).segments_wf() == (old(self).segments_wf() && segment.wf()),
    {
        let ghost before = self.segments@;
        self.segments.push(segment);
        proof {
            assert(views(self.segments@) =~= views(before).push(segment@));
            if all_wf(before) && segment.wf() {
                assert forall|i: int| 0 <= i < self.segments@.len() implies (
                #[trigger] self.segments@[i]).wf() by {
                    if i < before.len() {
                        assert(self.segments@[i] == before[i]);
                    }
                }
            }
            if all_wf(self.segments@) {
                assert(self.segments@[before.len() as int].wf());
                assert forall|i: int| 0 <= i < before.len() implies (#[trigger] before[i]).wf() by {
                    assert(self.segments@[i] == before[i]);
                }
            }
        }
    }

    /// The segment at `index`.
    pub fn segment(&self, index: usize) -> (segment: &Segment)
        requires
            index < self@.segments.len(),
        ensures
            segment@ == self@.segments[index as int],
            self.segments_wf() ==> segment.wf(),
    {
        &self.segments[index]
    }

    /// The segment at `index`, to be changed.
    pub fn segment_mut(&mut self, index: usize) -> (segment: &mut Segment)
        requires
            index < old(self)@.segments.len(),
        ensures
            segment@ == old(self)@.segments[index as int],
            old(self).segments_wf() ==> segment.wf(),
            final(self)@ == (RunView {
                segments: old(self)@.segments.update(index as int, final(segment)@),
                ..old(self)@
            }),
            old(self).segments_wf() && final(segment).wf() ==> final(self).segments_wf(),
    {
        let ghost before = self.segments@;
        proof {
            assert forall|s: Segment|
                views(#[trigger] before.update(index as int, s)) == views(before).update(
                    index as int,
                    s@,
                ) by {
                assert(views(before.update(index as int, s)) =~= views(before).update(
                    index as int,
                    s@,
                ));
            }
            assert forall|s: Segment| all_wf(before) && s.wf() implies all_wf(
                #[trigger] before.update(index as int, s),
            ) by {
                let after = before.update(index as int, s);
                assert forall|i: int| 0 <= i < after.len() implies (#[trigger] after[i]).wf() by {
                    if i != index {
                        assert(after[i] == before[i]);
                    }
                }
            }
        }
        let segment = &mut self.segments[index];
        segment
    }

    /// The attempts. The times of the segments in each attempt are in the
    /// histories of the segments.
    pub fn attempt_history(&self) -> (attempts: &[Attempt])
        ensures
            attempts@ == self@.attempt_history,
    {
        self.attempt_history.as_slice()
    }

    /// The names of the custom comparisons. The personal best is among
    /// them; the generated comparisons are not.
    pub fn custom_comparisons(&self) -> (comparisons: &[String])
        ensures
            names(comparisons@) == self@.custom_comparisons,
    {
        self.custom_comparisons.as_slice()
    }

    /// The names of the custom comparisons, to be changed. The name of the
    /// personal best is to stay among them.
    pub fn custom_comparisons_mut(&mut self) -> (comparisons: &mut Vec<String>)
        ensures
            names(comparisons@) == old(self)@.custom_comparisons,
            final(self)@ == (RunView {
                custom_comparisons: names(final(comparisons)@),
                ..old(self)@
            }),
            final(self).wf() == old(self).wf(),
    {
        &mut self.custom_comparisons
    }

    /// A walk through the names of all comparisons: first the custom
    /// comparisons, then the generated ones, each in their order.
    pub fn comparisons(&self) -> (iter: ComparisonsIter<'_>)
        ensures
            iter.wf(),
            iter@ == self@.custom_comparisons + generator_names(self@.comparison_generators),
            iter@.len() == self@.custom_comparisons.len() + self@.comparison_generators.len(),
    {
        ComparisonsIter::new(&self.custom_comparisons, &self.comparison_generators.0)
    }

    /// The comparison generators.
    pub fn comparison_generators(&self) -> (generators: &[Box<dyn ComparisonGenerator>])
        ensures
            generators@ == self@.comparison_generators,
    {
        self.comparison_generators.0.as_slice()
    }

    /// The comparison generators, to be changed.
    pub fn comparison_generators_mut(&mut self) -> (generators: &mut Vec<
        Box<dyn ComparisonGenerator>,
    >)
        ensures
            generators@ == old(self)@.comparison_generators,
            final(self)@ == (RunView {
                comparison_generators: final(generators)@,
                ..old(self)@
            }),
            final(self).wf() == old(self).wf(),
    {
        &mut self.comparison_generators.0
    }

    /// The settings of the auto splitter.
    pub fn auto_splitter_settings(&self) -> (settings: &[u8])
        ensures
            settings@ == self@.auto_splitter_settings,
    {
        self.auto_splitter_settings.as_slice()
    }

    /// The settings of the auto splitter, to be changed. They are to be
    /// kept such that they can stand inside an XML element.
    pub fn auto_splitter_settings_mut(&mut self) -> (settings: &mut Vec<u8>)
        ensures
            settings@ == old(self)@.auto_splitter_settings,
            final(self)@ == (RunView { auto_splitter_settings: final(settings)@, ..old(self)@ }),
            final(self).wf() == old(self).wf(),
    {
        &mut self.auto_splitter_settings
    }

    /// How many segments the run has.
    pub fn len(&self) -> (len: usize)
        ensures
            len == self@.segments.len(),
    {
        self.segments.len()
    }

    /// Whether the run has no segment.
    pub fn is_empty(&self) -> (empty: bool)
        ensures
            empty == (self@.segments.len() == 0),
    {
        self.segments.len() == 0
    }

    /// Whether the run was changed since it was made.
    pub fn has_been_modified(&self) -> (changed: bool)
        ensures
            changed == self@.has_changed,
    {
        self.has_changed
    }

    /// Marks the run as changed.
    pub fn mark_as_changed(&mut self)
        ensures
            final(self)@ == (RunView { has_changed: true, ..old(self)@ }),
            final(self).wf() == old(self).wf(),
    {
        self.has_changed = true;
    }

    /// Adds an attempt to the attempt history. Its index is one above the
    /// highest index so far, and 1 at least.
    pub fn add_attempt(
        &mut self,
        time: Time,
        started: Option<AtomicDateTime>,
        ended: Option<AtomicDateTime>,
        pause_time: Option<TimeSpan>,
    )
        requires
            next_index(old(self)@.attempt_history) <= i32::MAX,
        ensures
            final(self)@ == (RunView {
                attempt_history: old(self)@.attempt_history.push(
                    Attempt {
                        index: next_index(old(self)@.attempt_history) as i32,
                        time,
                        started,
                        ended,
                        pause_time,
                    },
                ),
                ..old(self)@
            }),
            old(self).wf() ==> final(self).wf(),
    {
        proof {
            lemma_next_index_is_free(self@.attempt_history);
        }
        let index: i32 = match max_attempt_index(&self.attempt_history) {
            Some(m) => if m >= 0 {
                m + 1
            } else {
                1
            },
            None => 1,
        };
        self.add_attempt_with_index(time, index, started, ended, pause_time);
    }

    /// Adds an attempt with the given index to the attempt history. No
    /// attempt of the history may have that index already.
    pub fn add_attempt_with_index(
        &mut self,
        time: Time,
        index: i32,
        started: Option<AtomicDateTime>,
        ended: Option<AtomicDateTime>,
        pause_time: Option<TimeSpan>,
    )
        requires
            !has_index(old(self)@.attempt_history, index as int),
        ensures
            final(self)@ == (RunView {
                attempt_history: old(self)@.attempt_history.push(
                    Attempt { index, time, started, ended, pause_time },
                ),
                ..old(self)@
            }),
            old(self).wf() ==> final(self).wf(),
    {
        let attempt = Attempt::new(index, time, started, ended, pause_time);
        proof {
            if indices_distinct(self@.attempt_history) {
                lemma_distinct_push(self@.attempt_history, attempt);
            }
        }
        self.attempt_history.push(attempt);
    }

    /// Forgets the id under which the run was published: the run is no
    /// longer the one that was published.
    pub fn clear_run_id(&mut self)
        ensures
            final(self)@ == (RunView {
                metadata: RunMetadataView { run_id: Seq::empty(), ..old(self)@.metadata },
                ..old(self)@
            }),
            final(self).wf() == old(self).wf(),
    {
        self.metadata.set_run_id("");
        proof {
            reveal_strlit("");
            assert(""@ =~= Seq::<char>::empty());
        }
    }

    /// Adds a custom comparison, unless there is one of that name.
    pub fn add_custom_comparison(&mut self, comparison: &str)
        ensures
            final(self)@ == (RunView {
                custom_comparisons: if old(self)@.custom_comparisons.contains(comparison@) {
                    old(self)@.custom_comparisons
                } else {
                    old(self)@.custom_comparisons.push(comparison@)
                },
                ..old(self)@
            }),
            final(self).wf() == old(self).wf(),
    {
        let ghost all = names(self.custom_comparisons@);
        let mut i: usize = 0;
        while i < self.custom_comparisons.len()
            invariant
                *self == *old(self),
                all == names(self.custom_comparisons@),
                i <= all.len(),
                forall|j: int| 0 <= j < i ==> all[j] != comparison@,
            decreases all.len() - i,
        {
            if self.custom_comparisons[i].as_str().eq(comparison) {
                proof {
                    assert(all[i as int] == comparison@);
                }
                return ;
            }
            proof {
                assert(all[i as int] == self.custom_comparisons@[i as int]@);
            }
            i += 1;
        }
        self.custom_comparisons.push(comparison.to_owned());
        proof {
            assert(names(self.custom_comparisons@) =~= all.push(comparison@));
        }
    }

    /// Makes every comparison generator write its comparison anew, in the
    /// order in which the generators were registered: each is given the
    /// segments as the one before it left them, and the attempt history.
    /// Only the times of the comparisons that the generators name change.
    pub fn regenerate_comparisons(&mut self)
        requires
            old(self).wf(),
        ensures
            final(self).wf(),
            final(self)@ == (RunView {
                segments: regenerated(
                    old(self)@.comparison_generators,
                    old(self)@.segments,
                    old(self)@.attempt_history,
                ),
                comparison_generators: final(self)@.comparison_generators,
                ..old(self)@
            }),
            generator_names(final(self)@.comparison_generators) == generator_names(
                old(self)@.comparison_generators,
            ),
            final(self)@.segments.len() == old(self)@.segments.len(),
            forall|i: int|
                0 <= i < old(self)@.segments.len() ==> differs_in_generated(
                    old(self)@.segments[i],
                    #[trigger] final(self)@.segments[i],
                    generator_names(old(self)@.comparison_generators),
                ),
    {
        let ghost start = views(self.segments@);
        let ghost makers = self.comparison_generators.0@;
        let ghost attempts = self.attempt_history@;
        let ghost generators = generator_names(makers);
        let count = self.comparison_generators.0.len();
        let mut k: usize = 0;
        proof {
            assert(makers.take(0) =~= Seq::empty());
        }
        while k < count
            invariant
                count == makers.len(),
                count == self.comparison_generators.0@.len(),
                makers == old(self)@.comparison_generators,
                attempts == old(self)@.attempt_history,
                generators == generator_names(makers),
                generators == generator_names(self.comparison_generators.0@),
                forall|j: int|
                    k <= j < count ==> #[trigger] self.comparison_generators.0@[j] == makers[j],
                start == old(self)@.segments,
                k <= count,
                all_wf(self.segments@),
                self@ == (RunView {
                    segments: views(self.segments@),
                    comparison_generators: self.comparison_generators.0@,
                    ..old(self)@
                }),
                views(self.segments@) == regenerated(makers.take(k as int), start, attempts),
                self.segments@.len() == start.len(),
                forall|i: int|
                    0 <= i < start.len() ==> differs_in_generated(
                        start[i],
                        (#[trigger] self.segments@[i])@,
                        generators.take(k as int),
                    ),
            decreases count - k,
        {
            let ghost before = self.segments@;
            let ghost name = self.comparison_generators.0@[k as int].spec_name();
            proof {
                assert(self.comparison_generators.0@[k as int] == makers[k as int]);
            }
            self.comparison_generators.0[k].generate(&mut self.segments, &self.attempt_history);
            proof {
                assert(generator_names(self.comparison_generators.0@) =~= generators);
                assert(generators[k as int] == name);
                assert(makers.take(k + 1).drop_last() =~= makers.take(k as int));
                assert(makers.take(k + 1).last() == makers[k as int]);
                assert forall|i: int| 0 <= i < start.len() implies differs_in_generated(
                    start[i],
                    (#[trigger] self.segments@[i])@,
                    generators.take(k + 1),
                ) by {
                    let after = self.segments@[i]@;
                    assert(differs_in_comparison(before[i]@, after, name));
                    assert(differs_in_generated(start[i], before[i]@, generators.take(k as int)));
                    assert forall|other: Seq<char>|
                        !generators.take(k + 1).contains(other) implies #[trigger] after.comparison(
                        other,
                    ) == start[i].comparison(other) by {
                        assert(generators.take(k + 1)[k as int] == name);
                        assert(other != name);
                        if generators.take(k as int).contains(other) {
                            let at = choose|at: int|
                                0 <= at < k && generators.take(k as int)[at] == other;
                            assert(generators.take(k + 1)[at] == other);
                        }
                    }
                }
            }
            k += 1;
        }
        proof {
            assert(makers.take(count as int) =~= makers);
            assert(generators.take(count as int) =~= generators);
            assert forall|i: int| 0 <= i < start.len() implies differs_in_generated(
                start[i],
                #[trigger] self@.segments[i],
                generators,
            ) by {
                assert(self@.segments[i] == self.segments@[i]@);
            }
        }
    }

    /// A name for the file of the run: the extended name without the
    /// characters that have no place in the name of a file.
    pub fn extended_file_name(&self, use_extended_category_name: bool) -> (name: String)
        ensures
            name@ == file_name_of(self@.extended_name(use_extended_category_name)),
    {
        let extended_name = self.extended_name(use_extended_category_name);
        match &extended_name {
            Cow::Borrowed(borrowed) => to_file_name(borrowed),
            Cow::Owned(owned) => to_file_name(owned.as_str()),
        }
    }

    /// The name of the run: "Game - Category", and the one alone where the
    /// other is empty. Where the extended category name is asked for, the
    /// values of the variables stand in parentheses behind the category.
    pub fn extended_name(&self, use_extended_category_name: bool) -> (name: Cow<'_, str>)
        ensures
            name@ == self@.extended_name(use_extended_category_name),
    {
        let category_name = if use_extended_category_name {
            self.extended_category_name(false, false, true)
        } else {
            Cow::Borrowed(self.category_name.as_str())
        };
        join_names(self.game_name.as_str(), category_name)
    }

    /// The name of the category with the values of the metadata that are
    /// asked for in parentheses: those of the variables, then the region,
    /// then the platform, as in "Any% (No Tuner, JPN, Wii Emulator)".
    pub fn extended_category_name(
        &self,
        show_region: bool,
        show_platform: bool,
        show_variables: bool,
    ) -> (name: Cow<'_, str>)
        ensures
            name@ == self@.extended_category_name(show_region, show_platform, show_variables),
    {
        crate::naming::extended_category_name(
            self.category_name.as_str(),
            &self.metadata,
            show_region,
            show_platform,
            show_variables,
        )
    }

    /// The highest index of the attempt history, if there is an attempt.
    pub fn max_attempt_history_index(&self) -> (index: Option<i32>)
        ensures
            match index {
                Some(m) => max_index(self@.attempt_history) == Some(m as int),
                None => max_index(self@.attempt_history) is None,
            },
    {
        max_attempt_index(&self.attempt_history)
    }

    /// Brings the run back into a consistent state. The comparison times
    /// and the history are fixed under real time and then under game time,
    /// then the duplicates are removed from the segment histories, then the
    /// entries that hold no time.
    pub fn fix_splits(&mut self)
        requires
            old(self).wf(),
            old(self)@.segments.len() > 0,
        ensures
            final(self).wf(),
            final(self)@ == old(self)@.fixed(),
            final(self)@.segments.len() == old(self)@.segments.len(),
    {
        crate::reconcile::fix_comparison_times_and_history(
            &mut self.segments,
            &self.custom_comparisons,
            TimingMethod::RealTime,
        );
        crate::reconcile::fix_comparison_times_and_history(
            &mut self.segments,
            &self.custom_comparisons,
            TimingMethod::GameTime,
        );
        crate::reconcile::remove_duplicates(&mut self.segments);
        crate::reconcile::remove_none_values(&mut self.segments, &self.attempt_history);
    }

    /// Removes the attempt history and the history of every segment.
    pub fn clear_history(&mut self)
        ensures
            final(self).wf(),
            final(self)@ == (RunView {
                attempt_history: Seq::empty(),
                segments: Seq::new(
                    old(self)@.segments.len(),
                    |i: int| without_history(old(self)@.segments[i]),
                ),
                ..old(self)@
            }),
    {
        self.attempt_history.clear();
        let ghost start = views(self.segments@);
        let len = self.segments.len();
        let mut i: usize = 0;
        while i < len
            invariant
                len == self.segments@.len(),
                start.len() == len,
                start == old(self)@.segments,
                i <= len,
                self@ == (RunView {
                    attempt_history: Seq::empty(),
                    segments: views(self.segments@),
                    ..old(self)@
                }),
                forall|j: int|
                    0 <= j < i ==> (#[trigger] self.segments@[j]).wf() && self.segments@[j]@
                        == without_history(start[j]),
                forall|j: int| i <= j < len ==> (#[trigger] self.segments@[j])@ == start[j],
            decreases len - i,
        {
            self.segments[i].segment_history_mut().clear();
            i += 1;
        }
        proof {
            assert(views(self.segments@) =~= Seq::new(
                start.len(),
                |i: int| without_history(start[i]),
            ));
        }
    }

    /// Removes the attempt history, the segment histories, the comparison
    /// times and the best segment times. No attempt counts as started, the
    /// run counts as not published, and of the custom comparisons only the
    /// personal best stays.
    pub fn clear_times(&mut self)
        ensures
            final(self).wf(),
            final(self)@ == (RunView {
                attempt_history: Seq::empty(),
                segments: Seq::new(
                    old(self)@.segments.len(),
                    |i: int| without_times(old(self)@.segments[i]),
                ),
                custom_comparisons: personal_best_only(old(self)@.custom_comparisons),
                attempt_count: 0,
                metadata: RunMetadataView { run_id: Seq::empty(), ..old(self)@.metadata },
                ..old(self)@
            }),
    {
        self.clear_history();
        let ghost cleared = views(self.segments@);
        let ghost all = names(self.custom_comparisons@);
        let mut kept: Vec<String> = Vec::new();
        let mut k: usize = 0;
        proof {
            assert(all.take(0) =~= Seq::empty());
            assert(names(kept@) =~= Seq::empty());
        }
        while k < self.custom_comparisons.len()
            invariant
                all == names(self.custom_comparisons@),
                k <= all.len(),
                names(kept@) == personal_best_only(all.take(k as int)),
            decreases all.len() - k,
        {
            proof {
                assert(all.take(k + 1).drop_last() =~= all.take(k as int));
                assert(all.take(k + 1).last() == self.custom_comparisons@[k as int]@);
            }
            if self.custom_comparisons[k].as_str().eq(PERSONAL_BEST) {
                let ghost before = names(kept@);
                kept.push(PERSONAL_BEST.to_owned());
                proof {
                    assert(names(kept@) =~= before.push(PERSONAL_BEST@));
                }
            }
            k += 1;
        }
        proof {
            assert(all.take(k as int) =~= all);
        }
        self.custom_comparisons = kept;
        let len = self.segments.len();
        let mut i: usize = 0;
        while i < len
            invariant
                len == self.segments@.len(),
                cleared.len() == len,
                i <= len,
                all_wf(self.segments@),
                self@ == (RunView {
                    attempt_history: Seq::empty(),
                    segments: views(self.segments@),
                    custom_comparisons: personal_best_only(old(self)@.custom_comparisons),
                    ..old(self)@
                }),
                forall|j: int|
                    0 <= j < i ==> (#[trigger] self.segments@[j])@ == (SegmentView {
                        comparisons: Seq::empty(),
                        best_segment_time: Time::none(),
                        ..cleared[j]
                    }),
                forall|j: int| i <= j < len ==> (#[trigger] self.segments@[j])@ == cleared[j],
            decreases len - i,
        {
            self.segments[i].clear_comparisons();
            self.segments[i].set_best_segment_time(Time::new());
            i += 1;
        }
        self.attempt_count = 0;
        self.metadata.set_run_id("");
        proof {
            reveal_strlit("");
            assert(""@ =~= Seq::<char>::empty());
            assert(views(self.segments@) =~= Seq::new(
                old(self)@.segments.len(),
                |i: int| without_times(old(self)@.segments[i]),
            ));
        }
    }

    /// The lowest index that the segment histories use, capped at 1.
    pub fn min_segment_history_index(&self) -> (index: i32)
        requires
            self.wf(),
            self@.segments.len() > 0,
        ensures
            index == min_history_index(self@.segments),
            is_min_history_index(self@.segments, index as int),
    {
        crate::reconcile::min_segment_history_index(&self.segments)
    }

    /// Whether the segment times of the personal best can be put into the
    /// segment histories: there is a segment, two indices below the lowest
    /// index in use are left, and every segment time can be represented.
    pub fn can_import_pb_into_segment_history(&self) -> (can: bool)
        requires
            self.wf(),
        ensures
            can == (self@.segments.len() > 0 && min_history_index(self@.segments) - 2 >= i32::MIN
                && durations_fit(personal_best_times(self@.segments, TimingMethod::RealTime))
                && durations_fit(personal_best_times(self@.segments, TimingMethod::GameTime))),
    {
        if self.segments.len() == 0 {
            return false;
        }
        let index: i32 = crate::reconcile::min_segment_history_index(&self.segments);
        if index < i32::MIN + 2 {
            return false;
        }
        let real_times = crate::import::collect_personal_best_times(
            &self.segments,
            TimingMethod::RealTime,
        );
        let game_times = crate::import::collect_personal_best_times(
            &self.segments,
            TimingMethod::GameTime,
        );
        crate::import::times_fit(&real_times, real_times.len()) && crate::import::times_fit(
            &game_times,
            game_times.len(),
        )
    }

    /// Whether the best segment time of the segment at `segment_index` can
    /// be put into its history: there is such a segment, and an index below
    /// the lowest index in use is left.
    pub fn can_import_best_segment(&self, segment_index: usize) -> (can: bool)
        requires
            self.wf(),
        ensures
            can == (segment_index < self@.segments.len() && min_history_index(self@.segments) - 1
                >= i32::MIN),
    {
        if segment_index >= self.segments.len() {
            return false;
        }
        crate::reconcile::min_segment_history_index(&self.segments) > i32::MIN
    }

    /// Whether the segment times of the current attempt can be put into
    /// the histories of the segments before `current_split_index`: there is
    /// an attempt, and each of those segment times can be represented.
    pub fn can_update_segment_history(&self, current_split_index: usize) -> (can: bool)
        ensures
            can == (self@.attempt_history.len() > 0 && durations_fit_before(
                split_times(self@.segments, TimingMethod::RealTime),
                current_split_index as int,
            ) && durations_fit_before(
                split_times(self@.segments, TimingMethod::GameTime),
                current_split_index as int,
            )),
    {
        if self.attempt_history.len() == 0 {
            return false;
        }
        let real_times = crate::import::collect_split_times(&self.segments, TimingMethod::RealTime);
        let game_times = crate::import::collect_split_times(&self.segments, TimingMethod::GameTime);
        crate::import::times_fit(&real_times, current_split_index) && crate::import::times_fit(
            &game_times,
            current_split_index,
        )
    }

    /// Whether an index is left for one more attempt.
    pub fn can_add_attempt(&self) -> (can: bool)
        ensures
            can == (next_index(self@.attempt_history) <= i32::MAX),
    {
        match max_attempt_index(&self.attempt_history) {
            Some(m) => m < i32::MAX,
            None => true,
        }
    }

    /// Puts the segment times of the personal best into the segment
    /// histories, as synthetic entries: the times under real time one below
    /// the lowest index in use, those under game time one below that.
    pub fn import_pb_into_segment_history(&mut self)
        requires
            old(self).wf(),
            old(self)@.segments.len() > 0,
            min_history_index(old(self)@.segments) - 2 >= i32::MIN,
            durations_fit(personal_best_times(old(self)@.segments, TimingMethod::RealTime)),
            durations_fit(personal_best_times(old(self)@.segments, TimingMethod::GameTime)),
        ensures
            final(self).wf(),
            final(self)@ == (RunView {
                segments: with_imported_personal_best(old(self)@.segments),
                ..old(self)@
            }),
    {
        crate::import::import_pb_into_segment_history(&mut self.segments);
    }

    /// Puts the best segment time of the segment at `segment_index` into
    /// its history, as a synthetic entry one below the lowest index in use.
    /// Nothing happens where the segment has no best segment time.
    pub fn import_best_segment(&mut self, segment_index: usize)
        requires
            old(self).wf(),
            segment_index < old(self)@.segments.len(),
            min_history_index(old(self)@.segments) - 1 >= i32::MIN,
        ensures
            final(self).wf(),
            final(self)@ == (RunView {
                segments: with_imported_best_segment(old(self)@.segments, segment_index as int),
                ..old(self)@
            }),
    {
        crate::import::import_best_segment(&mut self.segments, segment_index);
    }

    /// Puts the segment times of the current attempt into the histories of
    /// the segments before `current_split_index`, at the index of the
    /// latest attempt.
    pub fn update_segment_history(&mut self, current_split_index: usize)
        requires
            old(self).wf(),
            old(self)@.attempt_history.len() > 0,
            durations_fit_before(
                split_times(old(self)@.segments, TimingMethod::RealTime),
                current_split_index as int,
            ),
            durations_fit_before(
                split_times(old(self)@.segments, TimingMethod::GameTime),
                current_split_index as int,
            ),
        ensures
            final(self).wf(),
            final(self)@ == (RunView {
                segments: with_segment_times(
                    old(self)@.segments,
                    current_split_index as int,
                    old(self)@.attempt_history.last().index as int,
                ),
                ..old(self)@
            }),
    {
        crate::import::update_segment_history(
            &mut self.segments,
            &self.attempt_history,
            current_split_index,
        );
    }
}

impl RunView {
    /// The run after all fixes: its segments are fixed for its custom
    /// comparisons and its attempts, and nothing else changes.
    pub open spec fn fixed(self) -> RunView {
        RunView {
            segments: crate::reconcile::fix_splits(
                self.segments,
                self.custom_comparisons,
                self.attempt_history,
            ),
            ..self
        }
    }

    /// The name of the category with the values of the metadata that are
    /// asked for.
    pub open spec fn extended_category_name(
        self,
        show_region: bool,
        show_platform: bool,
        show_variables: bool,
    ) -> Seq<char> {
        extended(
            self.category_name,
            extension_values(self.metadata, show_region, show_platform, show_variables),
        )
    }

    /// The name of the run, with the extended category name where it is
    /// asked for; the values of the variables are then the only ones that
    /// are shown.
    pub open spec fn extended_name(self, use_extended_category_name: bool) -> Seq<char> {
        full_name(
            self.game_name,
            if use_extended_category_name {
                self.extended_category_name(false, false, true)
            } else {
                self.category_name
            },
        )
    }
}

} // verus!
