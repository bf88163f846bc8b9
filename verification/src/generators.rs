//! The list of the comparison generators of a run, and when two such
//! lists count as equal.

use crate::comparison::{generator_names, ComparisonGenerator};
use vstd::prelude::*;
use vstd::std_specs::cmp::PartialEqSpecImpl;

verus! {

/// The comparison generators of a run, in the order in which they were
/// registered. Two lists are equal when they name the same comparisons in
/// the same order.
pub struct ComparisonGenerators(pub Vec<Box<dyn ComparisonGenerator>>);

impl View for ComparisonGenerators {
    type V = Seq<Seq<char>>;

    /// The names of the generators.
    open spec fn view(&self) -> Seq<Seq<char>> {
        generator_names(self.0@)
    }
}

impl PartialEq for ComparisonGenerators {
    fn eq(&self, other: &ComparisonGenerators) -> (equal: bool) {
        let len = self.0.len();
        if len != other.0.len() {
            proof {
                assert(self@.len() != other@.len());
            }
            return false;
        }
        let mut i: usize = 0;
        while i < len
            invariant
                len == self.0@.len(),
                len == other.0@.len(),
                i <= len,
                forall|j: int| 0 <= j < i ==> self@[j] == other@[j],
            decreases len - i,
        {
            let same = self.0[i].name().eq(other.0[i].name());
            if !same {
                proof {
                    assert(self@[i as int] != other@[i as int]);
                }
                return false;
            }
            i += 1;
        }
        proof {
            assert(self@ =~= other@);
        }
        true
    }
}

impl PartialEqSpecImpl for ComparisonGenerators {
    open spec fn obeys_eq_spec() -> bool {
        true
    }

    open spec fn eq_spec(&self, other: &ComparisonGenerators) -> bool {
        self@ == other@
    }
}

} // verus!
