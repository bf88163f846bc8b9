//! What is known of a run besides its times: where it was published, the
//! platform and region of the game, and the values of the category's
//! variables.

use crate::named::{find, lemma_position_of, lemma_same_positions, named, with_value};
use vstd::prelude::*;

verus! {

/// The metadata of a run, as plain values.
pub struct RunMetadataView {
    pub run_id: Seq<char>,
    pub platform_name: Seq<char>,
    pub uses_emulator: bool,
    pub region_name: Seq<char>,
    /// The variables, each a name and its value, in the order in which
    /// they were added.
    pub variables: Seq<(Seq<char>, Seq<char>)>,
}

/// The variables as plain values.
pub open spec fn variables_of(variables: Seq<(String, String)>) -> Seq<(Seq<char>, Seq<char>)> {
    Seq::new(variables.len(), |i: int| (variables[i].0@, variables[i].1@))
}

/// The metadata of a run.
pub struct RunMetadata {
    run_id: String,
    platform_name: String,
    uses_emulator: bool,
    region_name: String,
    variables: Vec<(String, String)>,
}

impl View for RunMetadata {
    type V = RunMetadataView;

    closed spec fn view(&self) -> RunMetadataView {
        RunMetadataView {
            run_id: self.run_id@,
            platform_name: self.platform_name@,
            uses_emulator: self.uses_emulator,
            region_name: self.region_name@,
            variables: variables_of(self.variables@),
        }
    }
}

impl RunMetadata {
    /// Metadata that says nothing.
    pub fn new() -> (metadata: RunMetadata)
        ensures
            metadata@ == (RunMetadataView {
                run_id: Seq::empty(),
                platform_name: Seq::empty(),
                uses_emulator: false,
                region_name: Seq::empty(),
                variables: Seq::empty(),
            }),
    {
        let metadata = RunMetadata {
            run_id: String::new(),
            platform_name: String::new(),
            uses_emulator: false,
            region_name: String::new(),
            variables: Vec::new(),
        };
        proof {
            assert(metadata@.variables =~= Seq::empty());
        }
        metadata
    }

    /// The id under which the run was published, empty where it was not.
    pub fn run_id(&self) -> (id: &str)
        ensures
            id@ == self@.run_id,
    {
        self.run_id.as_str()
    }

    /// Sets the id under which the run was published.
    pub fn set_run_id(&mut self, id: &str)
        ensures
            final(self)@ == (RunMetadataView { run_id: id@, ..old(self)@ }),
    {
        self.run_id = id.to_owned();
    }

    /// The name of the platform that the game is run on.
    pub fn platform_name(&self) -> (name: &str)
        ensures
            name@ == self@.platform_name,
    {
        self.platform_name.as_str()
    }

    /// Sets the name of the platform that the game is run on.
    pub fn set_platform_name(&mut self, name: &str)
        ensures
            final(self)@ == (RunMetadataView { platform_name: name@, ..old(self)@ }),
    {
        self.platform_name = name.to_owned();
    }

    /// Whether an emulator is used.
    pub fn uses_emulator(&self) -> (uses_emulator: bool)
        ensures
            uses_emulator == self@.uses_emulator,
    {
        self.uses_emulator
    }

    /// Sets whether an emulator is used.
    pub fn set_emulator_usage(&mut self, uses_emulator: bool)
        ensures
            final(self)@ == (RunMetadataView { uses_emulator, ..old(self)@ }),
    {
        self.uses_emulator = uses_emulator;
    }

    /// The name of the region of the game.
    pub fn region_name(&self) -> (name: &str)
        ensures
            name@ == self@.region_name,
    {
        self.region_name.as_str()
    }

    /// Sets the name of the region of the game.
    pub fn set_region_name(&mut self, name: &str)
        ensures
            final(self)@ == (RunMetadataView { region_name: name@, ..old(self)@ }),
    {
        self.region_name = name.to_owned();
    }

    /// Gives the variable `name` the value `value`. A variable that is new
    /// goes to the end.
    pub fn add_variable(&mut self, name: &str, value: &str)
        ensures
            final(self)@ == (RunMetadataView {
                variables: with_value(old(self)@.variables, name@, value@),
                ..old(self)@
            }),
    {
        let ghost all = self@.variables;
        proof {
            assert(named(self.variables@) =~= Seq::new(
                all.len(),
                |i: int| (all[i].0, self.variables@[i].1),
            ));
            lemma_same_positions(named(self.variables@), all, name@);
        }
        let position = find(&self.variables, name);
        if position < self.variables.len() {
            self.variables[position].1 = value.to_owned();
            proof {
                lemma_position_of(all, name@);
                assert(self@.variables =~= all.update(position as int, (name@, value@)));
            }
        } else {
            self.variables.push((name.to_owned(), value.to_owned()));
            proof {
                assert(self@.variables =~= all.push((name@, value@)));
            }
        }
    }

    /// Removes every variable.
    pub fn clear_variables(&mut self)
        ensures
            final(self)@ == (RunMetadataView { variables: Seq::empty(), ..old(self)@ }),
    {
        self.variables.clear();
        proof {
            assert(self@.variables =~= Seq::empty());
        }
    }

    /// How many variables there are.
    pub fn variable_count(&self) -> (count: usize)
        ensures
            count == self@.variables.len(),
    {
        self.variables.len()
    }

    /// The name and the value of the variable at `index`.
    pub fn variable(&self, index: usize) -> (variable: (&str, &str))
        requires
            index < self@.variables.len(),
        ensures
            variable.0@ == self@.variables[index as int].0,
            variable.1@ == self@.variables[index as int].1,
    {
        let entry = &self.variables[index];
        (entry.0.as_str(), entry.1.as_str())
    }
}

} // verus!
