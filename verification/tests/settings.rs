use livesplit_core::{SettingValue, SettingsMap, UserSetting, UserSettingKind};
use std::sync::Arc;

fn value_of(map: &SettingsMap, key: &str) -> Option<bool> {
    match map.get(key) {
        Some(SettingValue::Bool(value)) => Some(*value),
        _ => None,
    }
}

fn pairs(map: &SettingsMap) -> Vec<(String, bool)> {
    let mut pairs: Vec<(String, bool)> = map
        .iter()
        .into_iter()
        .map(|(key, value)| match value {
            SettingValue::Bool(value) => (key.to_string(), *value),
            _ => unreachable!(),
        })
        .collect();
    pairs.sort();
    pairs
}

#[test]
fn a_new_map_holds_nothing() {
    let map = SettingsMap::new();
    assert_eq!(value_of(&map, "start"), None);
    assert!(map.iter().is_empty());
    let map = SettingsMap::default();
    assert!(map.iter().is_empty());
}

#[test]
fn insert_sets_and_replaces() {
    let mut map = SettingsMap::new();
    map.insert(Arc::from("start"), SettingValue::Bool(true));
    map.insert(Arc::from("split"), SettingValue::Bool(false));
    assert_eq!(value_of(&map, "start"), Some(true));
    assert_eq!(value_of(&map, "split"), Some(false));
    assert_eq!(value_of(&map, "reset"), None);
    map.insert(Arc::from("start"), SettingValue::Bool(false));
    assert_eq!(value_of(&map, "start"), Some(false));
    assert_eq!(
        pairs(&map),
        vec![("split".to_string(), false), ("start".to_string(), false)]
    );
}

#[test]
fn keys_are_told_apart_by_case() {
    let mut map = SettingsMap::new();
    map.insert(Arc::from("Start"), SettingValue::Bool(true));
    assert_eq!(value_of(&map, "start"), None);
    assert_eq!(value_of(&map, "Start"), Some(true));
}

#[test]
fn a_copy_is_unchanged_until_one_of_the_two_changes() {
    let mut map = SettingsMap::new();
    map.insert(Arc::from("start"), SettingValue::Bool(true));
    let copy = map.clone();
    assert!(map.is_unchanged(&copy));
    assert!(copy.is_unchanged(&map));
    assert!(map.is_unchanged(&map));
    map.insert(Arc::from("split"), SettingValue::Bool(true));
    assert!(!map.is_unchanged(&copy));
    assert_eq!(value_of(&copy, "split"), None);
    assert_eq!(value_of(&copy, "start"), Some(true));
    assert_eq!(value_of(&map, "split"), Some(true));
    assert_eq!(pairs(&copy), vec![("start".to_string(), true)]);
}

#[test]
fn maps_that_were_made_apart_share_nothing() {
    let a = SettingsMap::new();
    let b = SettingsMap::new();
    assert!(!a.is_unchanged(&b));
}

#[test]
fn a_user_setting_holds_its_parts() {
    let title = UserSetting::new(
        Arc::from("general"),
        Arc::from("General"),
        None,
        UserSettingKind::Title { heading_level: 0 },
    );
    let setting = UserSetting::new(
        Arc::from("start"),
        Arc::from("Start on load"),
        Some(Arc::from("Starts the timer when the game loads")),
        UserSettingKind::Bool { default_value: true },
    );
    assert_eq!(&*title.key, "general");
    assert!(title.tooltip.is_none());
    assert!(matches!(title.kind, UserSettingKind::Title { heading_level: 0 }));
    assert_eq!(&*setting.description, "Start on load");
    assert_eq!(setting.tooltip.as_deref(), Some("Starts the timer when the game loads"));
    assert!(matches!(setting.kind, UserSettingKind::Bool { default_value: true }));
    // The map has no value for a setting that was never changed.
    let map = SettingsMap::new();
    assert!(map.get(&setting.key).is_none());
}
