//! Comparisons that are not kept by hand but made from the segments and
//! the attempts, and the walk through the names of all comparisons.

use crate::attempt::Attempt;
use crate::segment::{
    all_wf, lemma_with_comparison, views, with_comparison, Segment, SegmentView,
};
use crate::text::names;
use crate::time::Time;
use vstd::prelude::*;

verus! {

/// Whether `after` differs from `before` at most in the time of the
/// comparison `name`.
pub open spec fn differs_in_comparison(
    before: SegmentView,
    after: SegmentView,
    name: Seq<char>,
) -> bool {
    &&& after.name == before.name
    &&& after.icon == before.icon
    &&& after.split_time == before.split_time
    &&& after.best_segment_time == before.best_segment_time
    &&& after.history == before.history
    &&& forall|other: Seq<char>|
        other != name ==> #[trigger] after.comparison(other) == before.comparison(other)
}

/// A maker of one comparison. It has a name, and it writes the times of
/// the comparison of that name, one for each segment.
pub trait ComparisonGenerator {
    /// The name of the comparison.
    spec fn spec_name(&self) -> Seq<char>;

    /// The segments as the generator leaves them when it is given
    /// `segments` and `attempts`.
    spec fn generated(&self, segments: Seq<SegmentView>, attempts: Seq<Attempt>) -> Seq<
        SegmentView,
    >;

    /// The name of the comparison.
    fn name(&self) -> (name: &str)
        ensures
            name@ == self.spec_name(),
    ;

    /// Writes the comparison into the segments. Only the times of the
    /// comparison of this name change.
    fn generate(&mut self, segments: &mut Vec<Segment>, attempts: &Vec<Attempt>)
        requires
            all_wf(old(segments)@),
        ensures
            final(self).spec_name() == old(self).spec_name(),
            all_wf(final(segments)@),
            views(final(segments)@) == old(self).generated(views(old(segments)@), attempts@),
            final(segments)@.len() == old(segments)@.len(),
            forall|i: int|
                0 <= i < old(segments)@.len() ==> differs_in_comparison(
                    old(segments)@[i]@,
                    (#[trigger] final(segments)@[i])@,
                    old(self).spec_name(),
                ),
    ;
}

/// The generator of a comparison that has no times: it leaves every
/// segment without a time for its comparison.
pub struct BlankComparison {
    name: String,
}

impl BlankComparison {
    /// The generator of the blank comparison of the given name.
    pub fn new(name: &str) -> (generator: BlankComparison)
        ensures
            generator.spec_name() == name@,
    {
        BlankComparison { name: name.to_owned() }
    }
}

impl ComparisonGenerator for BlankComparison {
    closed spec fn spec_name(&self) -> Seq<char> {
        self.name@
    }

    open spec fn generated(&self, segments: Seq<SegmentView>, attempts: Seq<Attempt>) -> Seq<
        SegmentView,
    > {
        Seq::new(
            segments.len(),
            |i: int|
                SegmentView {
                    comparisons: with_comparison(
                        segments[i].comparisons,
                        self.spec_name(),
                        Time::none(),
                    ),
                    ..segments[i]
                },
        )
    }

    fn name(&self) -> (name: &str) {
        self.name.as_str()
    }

    fn generate(&mut self, segments: &mut Vec<Segment>, attempts: &Vec<Attempt>)
        ensures
            forall|i: int|
                0 <= i < final(segments)@.len() ==> (#[trigger] final(segments)@[i])@.comparison(
                    old(self).spec_name(),
                ) == Time::none(),
    {
        let len = segments.len();
        let mut i: usize = 0;
        while i < len
            invariant
                *self == *old(self),
                len == segments@.len(),
                len == old(segments)@.len(),
                all_wf(segments@),
                i <= len,
                forall|j: int|
                    0 <= j < i ==> differs_in_comparison(
                        old(segments)@[j]@,
                        (#[trigger] segments@[j])@,
                        self.name@,
                    ) && segments@[j]@.comparison(self.name@) == Time::none() && segments@[j]@
                        == (SegmentView {
                        comparisons: with_comparison(
                            old(segments)@[j]@.comparisons,
                            self.name@,
                            Time::none(),
                        ),
                        ..old(segments)@[j]@
                    }),
                forall|j: int| i <= j < len ==> #[trigger] segments@[j] == old(segments)@[j],
            decreases len - i,
        {
            let ghost before = segments@[i as int]@;
            segments[i].set_comparison(self.name.as_str(), Time::new());
            proof {
                let after = segments@[i as int]@;
                assert forall|other: Seq<char>| other != self.name@ implies #[trigger] after.comparison(
                    other,
                ) == before.comparison(other) by {
                    lemma_with_comparison(before.comparisons, self.name@, Time::none(), other);
                }
                lemma_with_comparison(before.comparisons, self.name@, Time::none(), self.name@);
            }
            i += 1;
        }
        proof {
            assert(views(segments@) =~= self.generated(views(old(segments)@), attempts@));
        }
    }
}

/// The segments as `generators` leave them when each of them in turn, the
/// first of them first, is given the segments that the one before it left,
/// and `attempts`.
pub open spec fn regenerated(
    generators: Seq<Box<dyn ComparisonGenerator>>,
    segments: Seq<SegmentView>,
    attempts: Seq<Attempt>,
) -> Seq<SegmentView>
    decreases generators.len(),
{
    if generators.len() == 0 {
        segments
    } else {
        generators.last().generated(
            regenerated(generators.drop_last(), segments, attempts),
            attempts,
        )
    }
}

/// The names of the generators.
pub open spec fn generator_names(generators: Seq<Box<dyn ComparisonGenerator>>) -> Seq<Seq<char>> {
    Seq::new(generators.len(), |i: int| generators[i].spec_name())
}

/// A walk through the names of all comparisons of a run: first the custom
/// comparisons, then the generated ones, each in their order.
pub struct ComparisonsIter<'a> {
    custom: &'a Vec<String>,
    generators: &'a Vec<Box<dyn ComparisonGenerator>>,
    custom_position: usize,
    generator_position: usize,
}

impl<'a> View for ComparisonsIter<'a> {
    type V = Seq<Seq<char>>;

    /// The names that are still to come.
    closed spec fn view(&self) -> Seq<Seq<char>> {
        names(self.custom@).skip(self.custom_position as int) + generator_names(
            self.generators@,
        ).skip(self.generator_position as int)
    }
}

impl<'a> ComparisonsIter<'a> {
    /// Neither position is behind its list.
    pub closed spec fn wf(&self) -> bool {
        &&& self.custom_position <= self.custom@.len()
        &&& self.generator_position <= self.generators@.len()
    }

    /// A walk through `custom` and then through the names of `generators`.
    pub fn new(custom: &'a Vec<String>, generators: &'a Vec<Box<dyn ComparisonGenerator>>) -> (iter:
        ComparisonsIter<'a>)
        ensures
            iter.wf(),
            iter@ == names(custom@) + generator_names(generators@),
    {
        let iter = ComparisonsIter { custom, generators, custom_position: 0, generator_position: 0 };
        proof {
            assert(iter@ =~= names(custom@) + generator_names(generators@));
        }
        iter
    }

    /// The next name, if there is one left.
    pub fn next(&mut self) -> (name: Option<&'a str>)
        requires
            old(self).wf(),
        ensures
            final(self).wf(),
            match name {
                Some(name) => old(self)@.len() > 0 && name@ == old(self)@[0] && final(self)@
                    == old(self)@.drop_first(),
                None => old(self)@.len() == 0 && final(self)@ == old(self)@,
            },
    {
        let ghost custom = names(self.custom@);
        let ghost generated = generator_names(self.generators@);
        if self.custom_position < self.custom.len() {
            let name = self.custom[self.custom_position].as_str();
            proof {
                assert(old(self)@[0] == custom[self.custom_position as int]);
            }
            self.custom_position += 1;
            proof {
                assert(self@ =~= old(self)@.drop_first());
            }
            Some(name)
        } else if self.generator_position < self.generators.len() {
            let name = self.generators[self.generator_position].name();
            proof {
                assert(old(self)@[0] == generated[self.generator_position as int]);
            }
            self.generator_position += 1;
            proof {
                assert(self@ =~= old(self)@.drop_first());
            }
            Some(name)
        } else {
            None
        }
    }

    /// How many names are left: the number itself as the lower bound and
    /// as the upper bound. A number that is too large to be held gives the
    /// largest number as the lower bound and no upper bound.
    pub fn size_hint(&self) -> (hint: (usize, Option<usize>))
        requires
            self.wf(),
        ensures
            self@.len() <= usize::MAX ==> hint == (self@.len() as usize, Some(self@.len() as usize)),
            self@.len() > usize::MAX ==> hint == (usize::MAX, None::<usize>),
    {
        let custom: usize = self.custom.len() - self.custom_position;
        let generated: usize = self.generators.len() - self.generator_position;
        match custom.checked_add(generated) {
            Some(len) => (len, Some(len)),
            None => (usize::MAX, None),
        }
    }
}

} // verus!
