//! The settings that an auto splitter offers to the user, and the map of
//! the values that the user has given them.

use crate::named::{find, lemma_position_of, lemma_with_value, named, value_of, with_value};
use std::sync::Arc;
use vstd::prelude::*;

verus! {

/// A setting that is shown to the user, who may change it.
#[non_exhaustive]
#[derive(Clone)]
pub struct UserSetting {
    /// The key of the setting. It is not shown to the user: the value of
    /// the setting is kept and found under it in the settings map.
    pub key: Arc<str>,
    /// The name of the setting that is shown to the user.
    pub description: Arc<str>,
    /// A tooltip that is shown to the user, if there is one.
    pub tooltip: Option<Arc<str>>,
    /// The kind of the setting, with what belongs to that kind.
    pub kind: UserSettingKind,
}

impl UserSetting {
    /// A setting of the given key, description, tooltip and kind.
    pub fn new(
        key: Arc<str>,
        description: Arc<str>,
        tooltip: Option<Arc<str>>,
        kind: UserSettingKind,
    ) -> (setting: UserSetting)
        ensures
            setting.key == key,
            setting.description == description,
            setting.tooltip == tooltip,
            setting.kind == kind,
    {
        UserSetting { key, description, tooltip, kind }
    }
}

/// The kind of a setting.
#[derive(Clone)]
pub enum UserSettingKind {
    /// A title. It has no value: it groups the settings that follow it.
    Title {
        /// The level of the heading, 0 for the titles at the top.
        heading_level: u32,
    },
    /// A setting that is on or off.
    Bool {
        /// The value of the setting while the settings map has none.
        default_value: bool,
    },
}

/// The value of a setting.
#[non_exhaustive]
#[derive(Clone, Debug)]
pub enum SettingValue {
    /// On or off.
    Bool(bool),
}

/// Whether no key stands twice in `entries`.
pub open spec fn keys_distinct(entries: Seq<(Seq<char>, SettingValue)>) -> bool {
    forall|i: int, j: int|
        0 <= i < j < entries.len() ==> (#[trigger] entries[i]).0 != (#[trigger] entries[j]).0
}

/// The mapping that `entries` stand for.
pub open spec fn as_map(entries: Seq<(Seq<char>, SettingValue)>) -> Map<Seq<char>, SettingValue> {
    Map::new(
        |key: Seq<char>| value_of(entries, key) is Some,
        |key: Seq<char>| value_of(entries, key)->0,
    )
}

/// Calls `Arc::make_mut`, which gives access to the value behind the
/// pointer, after it has made a copy of the value for this pointer where
/// other pointers share it. What is handed out holds what the pointer held,
/// and the pointer holds in the end what was put there.
#[verifier::external_body]
fn make_mut(values: &mut Arc<Vec<(String, SettingValue)>>) -> (inner: &mut Vec<
    (String, SettingValue),
>)
    ensures
        named(inner@) == named(old(values)@),
        final(values)@ == final(inner)@,
{
    Arc::make_mut(values)
}

/// Calls `Arc::ptr_eq`, which tells whether two pointers point to the same
/// value in memory. Where they do, they hold the same.
#[verifier::external_body]
fn ptr_eq(a: &Arc<Vec<(String, SettingValue)>>, b: &Arc<Vec<(String, SettingValue)>>) -> (same:
    bool)
    ensures
        same ==> a@ == b@,
{
    Arc::ptr_eq(a, b)
}

/// The values of the settings of an auto splitter, each under the key of
/// its setting. Only the values that were set are in the map. A copy of the
/// map shares its values with the map until one of the two is changed.
pub struct SettingsMap {
    values: Arc<Vec<(String, SettingValue)>>,
}

impl View for SettingsMap {
    type V = Map<Seq<char>, SettingValue>;

    closed spec fn view(&self) -> Map<Seq<char>, SettingValue> {
        as_map(named(self.values@))
    }
}

impl Clone for SettingsMap {
    /// A copy of the map. It shares its values with the map.
    fn clone(&self) -> (copy: SettingsMap)
        ensures
            copy@ == self@,
            copy.wf() == self.wf(),
    {
        SettingsMap { values: self.values.clone() }
    }
}

impl Default for SettingsMap {
    fn default() -> (map: SettingsMap)
        ensures
            map.wf(),
            map@ == Map::<Seq<char>, SettingValue>::empty(),
    {
        SettingsMap::new()
    }
}

impl SettingsMap {
    /// No key is kept twice.
    pub closed spec fn wf(&self) -> bool {
        keys_distinct(named(self.values@))
    }

    /// A map without values.
    pub fn new() -> (map: SettingsMap)
        ensures
            map.wf(),
            map@ == Map::<Seq<char>, SettingValue>::empty(),
    {
        let map = SettingsMap { values: Arc::new(Vec::new()) };
        proof {
            assert(map@ =~= Map::<Seq<char>, SettingValue>::empty());
        }
        map
    }

    /// Gives the setting of the key `key` the value `value`, in place of
    /// the value that it had if it had one.
    pub fn insert(&mut self, key: Arc<str>, value: SettingValue)
        requires
            old(self).wf(),
        ensures
            final(self).wf(),
            final(self)@ == old(self)@.insert(key@, value),
    {
        let ghost before = named(self.values@);
        let name: &str = &*key;
        let values = make_mut(&mut self.values);
        let position = find(values, name);
        if position < values.len() {
            values[position].1 = value;
        } else {
            values.push((name.to_owned(), value));
        }
        proof {
            let after = named(self.values@);
            lemma_position_of(before, key@);
            assert(after =~= with_value(before, key@, value));
            assert forall|k: Seq<char>| value_of(after, k) == if k == key@ {
                Some(value)
            } else {
                value_of(before, k)
            } by {
                lemma_with_value(before, key@, value, k);
            }
            assert(as_map(after) =~= as_map(before).insert(key@, value));
            assert forall|i: int, j: int| 0 <= i < j < after.len() implies (#[trigger] after[i]).0 != (
            #[trigger] after[j]).0 by {
                if j < before.len() {
                    assert(after[i].0 == before[i].0);
                    assert(after[j].0 == before[j].0);
                } else {
                    assert(after[i].0 == before[i].0);
                }
            }
        }
    }

    /// The value of the setting of the key `key`, if the map has one. A
    /// setting that was never changed has none.
    pub fn get(&self, key: &str) -> (value: Option<&SettingValue>)
        ensures
            match value {
                Some(value) => self@.contains_key(key@) && *value == self@[key@],
                None => !self@.contains_key(key@),
            },
    {
        let position = find(&self.values, key);
        if position < self.values.len() {
            Some(&self.values[position].1)
        } else {
            None
        }
    }

    /// The keys in the map, each with its value.
    pub fn iter(&self) -> (entries: Vec<(&str, &SettingValue)>)
        requires
            self.wf(),
        ensures
            forall|i: int|
                0 <= i < entries@.len() ==> self@.contains_pair(
                    (#[trigger] entries@[i]).0@,
                    *entries@[i].1,
                ),
            forall|key: Seq<char>| #[trigger]
                self@.contains_key(key) ==> exists|i: int|
                    0 <= i < entries@.len() && (#[trigger] entries@[i]).0@ == key,
            forall|i: int, j: int|
                0 <= i < j < entries@.len() ==> (#[trigger] entries@[i]).0@ != (
                #[trigger] entries@[j]).0@,
    {
        let ghost all = named(self.values@);
        let mut entries: Vec<(&str, &SettingValue)> = Vec::new();
        let mut i: usize = 0;
        while i < self.values.len()
            invariant
                all == named(self.values@),
                i <= all.len(),
                entries@.len() == i,
                forall|j: int|
                    0 <= j < i ==> (#[trigger] entries@[j]).0@ == all[j].0 && *entries@[j].1
                        == all[j].1,
            decreases all.len() - i,
        {
            let entry = &self.values[i];
            entries.push((entry.0.as_str(), &entry.1));
            i += 1;
        }
        proof {
            assert forall|j: int| 0 <= j < entries@.len() implies self@.contains_pair(
                (#[trigger] entries@[j]).0@,
                *entries@[j].1,
            ) by {
                assert forall|before: int| 0 <= before < j implies (#[trigger] all[before]).0
                    != all[j].0 by {}
                crate::named::lemma_position_is(all, all[j].0, j);
            }
            assert forall|key: Seq<char>| #[trigger] self@.contains_key(key) implies exists|i: int|
                0 <= i < entries@.len() && (#[trigger] entries@[i]).0@ == key by {
                lemma_position_of(all, key);
                let at = crate::named::position_of(all, key);
                assert(entries@[at].0@ == key);
            }
            assert forall|a: int, b: int| 0 <= a < b < entries@.len() implies (
            #[trigger] entries@[a]).0@ != (#[trigger] entries@[b]).0@ by {
                assert(all[a].0 != all[b].0);
            }
        }
        entries
    }

    /// Whether this map and `other` still share their values: neither was
    /// changed since the one was copied from the other. Maps that share
    /// their values hold the same.
    pub fn is_unchanged(&self, other: &Self) -> (unchanged: bool)
        ensures
            unchanged ==> self@ == other@,
    {
        ptr_eq(&self.values, &other.values)
    }
}

} // verus!
