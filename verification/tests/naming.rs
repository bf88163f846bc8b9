use livesplit_core::naming::{
    equals_ignoring_case, extend_category_name, render_variable, to_file_name,
    trim_question_marks,
};
use livesplit_core::Run;

fn run_with_category(category: &str) -> Run {
    let mut run = Run::new();
    run.set_category_name(category);
    run
}

#[test]
fn extended_name_joins_game_and_category() {
    let mut run = Run::new();
    run.set_game_name("Super Mario Odyssey");
    run.set_category_name("Darker Side");
    assert_eq!(run.extended_name(false), "Super Mario Odyssey - Darker Side");
}

#[test]
fn extended_name_omits_the_dash_where_a_side_is_empty() {
    let mut run = Run::new();
    assert_eq!(run.extended_name(false), "");
    run.set_game_name("Super Mario Odyssey");
    assert_eq!(run.extended_name(false), "Super Mario Odyssey");
    run.set_game_name("");
    run.set_category_name("Darker Side");
    assert_eq!(run.extended_name(false), "Darker Side");
}

#[test]
fn extended_name_shows_only_the_variables() {
    let mut run = Run::new();
    run.set_game_name("Zelda");
    run.set_category_name("Any%");
    run.metadata_mut().set_region_name("JPN");
    run.metadata_mut().set_platform_name("Wii");
    run.metadata_mut().add_variable("Version", "1.0");
    assert_eq!(run.extended_name(true), "Zelda - Any% (1.0)");
    assert_eq!(run.extended_name(false), "Zelda - Any%");
}

#[test]
fn a_no_goes_into_the_existing_group() {
    let mut run = run_with_category("Any% (No Tuner)");
    run.metadata_mut().add_variable("Amiibo", "No");
    assert_eq!(
        run.extended_category_name(false, false, true),
        "Any% (No Tuner, No No)"
    );
}

#[test]
fn a_yes_gives_the_name_of_the_variable() {
    let mut run = run_with_category("Any%");
    run.metadata_mut().add_variable("Uses Amiibo??", "Yes");
    assert_eq!(run.extended_category_name(false, false, true), "Any% (Uses Amiibo)");
}

#[test]
fn case_is_ignored_in_yes_and_no() {
    let mut run = run_with_category("Any%");
    run.metadata_mut().add_variable("Glitches", "YES");
    run.metadata_mut().add_variable("Warps", "nO");
    run.metadata_mut().add_variable("Route", "yesterday");
    assert_eq!(
        run.extended_category_name(false, false, true),
        "Any% (Glitches, No nO, yesterday)"
    );
}

#[test]
fn another_value_stands_for_itself() {
    let mut run = run_with_category("100%");
    run.metadata_mut().add_variable("Difficulty", "Hard");
    run.metadata_mut().add_variable("Version", "");
    assert_eq!(run.extended_category_name(false, false, true), "100% (Hard, )");
}

#[test]
fn variables_come_before_region_and_platform() {
    let mut run = run_with_category("Any% (No Tuner)");
    run.metadata_mut().add_variable("Version", "1.1");
    run.metadata_mut().set_region_name("JPN");
    run.metadata_mut().set_platform_name("Wii");
    run.metadata_mut().set_emulator_usage(true);
    assert_eq!(
        run.extended_category_name(true, true, true),
        "Any% (No Tuner, 1.1, JPN, Wii Emulator)"
    );
    assert_eq!(run.extended_category_name(true, false, false), "Any% (No Tuner, JPN)");
    assert_eq!(
        run.extended_category_name(false, true, false),
        "Any% (No Tuner, Wii Emulator)"
    );
}

#[test]
fn platform_and_emulator() {
    let mut run = run_with_category("Any%");
    assert_eq!(run.extended_category_name(true, true, true), "Any%");
    run.metadata_mut().set_emulator_usage(true);
    assert_eq!(run.extended_category_name(false, true, false), "Any% (Emulator)");
    run.metadata_mut().set_platform_name("SNES");
    assert_eq!(run.extended_category_name(false, true, false), "Any% (SNES Emulator)");
    run.metadata_mut().set_emulator_usage(false);
    assert_eq!(run.extended_category_name(false, true, false), "Any% (SNES)");
    assert_eq!(run.extended_category_name(false, false, false), "Any%");
}

#[test]
fn an_empty_region_is_not_shown() {
    let mut run = run_with_category("Any%");
    run.metadata_mut().set_platform_name("N64");
    assert_eq!(run.extended_category_name(true, true, false), "Any% (N64)");
}

#[test]
fn an_empty_category_stays_empty() {
    let mut run = run_with_category("");
    run.metadata_mut().set_region_name("JPN");
    assert_eq!(run.extended_category_name(true, true, true), "");
}

#[test]
fn what_follows_the_group_stays_behind_it() {
    let mut run = run_with_category("Any% (No Tuner) Beta");
    assert_eq!(run.extended_category_name(true, true, true), "Any% (No Tuner) Beta");
    run.metadata_mut().set_region_name("JPN");
    assert_eq!(
        run.extended_category_name(true, false, false),
        "Any% (No Tuner, JPN) Beta"
    );
}

#[test]
fn only_the_first_group_is_extended() {
    let mut run = run_with_category("Any% (A) (B)");
    run.metadata_mut().set_region_name("PAL");
    assert_eq!(run.extended_category_name(true, false, false), "Any% (A, PAL) (B)");
}

#[test]
fn a_group_that_is_not_closed_is_no_group() {
    let mut run = run_with_category("Any% (x");
    run.metadata_mut().set_region_name("PAL");
    assert_eq!(run.extended_category_name(true, false, false), "Any% (x (PAL)");
    run.set_category_name("Any%) x (");
    assert_eq!(run.extended_category_name(true, false, false), "Any%) x ( (PAL)");
}

#[test]
fn an_empty_group_gets_an_opening_of_its_own() {
    let values = vec!["JPN".to_string(), "Wii".to_string()];
    assert_eq!(extend_category_name("Any% ()", &values), "Any% ( (JPN, Wii)");
}

#[test]
fn extend_category_name_without_values_changes_nothing() {
    let values: Vec<String> = Vec::new();
    assert_eq!(extend_category_name("Any% (No Tuner) Beta", &values), "Any% (No Tuner) Beta");
    assert_eq!(extend_category_name("Any%", &values), "Any%");
}

#[test]
fn extend_category_name_makes_a_new_group() {
    let values = vec!["JPN".to_string()];
    assert_eq!(extend_category_name("Any%", &values), "Any% (JPN)");
    assert_eq!(extend_category_name("Ending % ünïcödé", &values), "Ending % ünïcödé (JPN)");
    assert_eq!(extend_category_name("ünï (cödé) x", &values), "ünï (cödé, JPN) x");
}

#[test]
fn extended_file_name_has_no_forbidden_character() {
    let mut run = Run::new();
    run.set_game_name("A\\B/C:D*E?F\"G<H>I|J");
    run.set_category_name("Any%: <fast>");
    let name = run.extended_file_name(false);
    assert_eq!(name, "ABCDEFGHIJ - Any% fast");
    for c in ['\\', '/', ':', '*', '?', '"', '<', '>', '|'] {
        assert!(!name.contains(c));
    }
}

#[test]
fn extended_file_name_uses_the_extended_category_name() {
    let mut run = Run::new();
    run.set_game_name("Game");
    run.set_category_name("Any%");
    run.metadata_mut().add_variable("Mode", "Co-op: 2?");
    assert_eq!(run.extended_file_name(true), "Game - Any% (Co-op 2)");
    assert_eq!(run.extended_file_name(false), "Game - Any%");
}

#[test]
fn to_file_name_keeps_every_other_character() {
    assert_eq!(to_file_name("Super Mario Odyssey - Darker Side"), "Super Mario Odyssey - Darker Side");
    assert_eq!(to_file_name("\\/:*?\"<>|"), "");
    assert_eq!(to_file_name(""), "");
    assert_eq!(to_file_name("ä/ö"), "äö");
}

#[test]
fn trim_question_marks_only_at_the_end() {
    assert_eq!(trim_question_marks("Fast?"), "Fast");
    assert_eq!(trim_question_marks("Fast???"), "Fast");
    assert_eq!(trim_question_marks("Is? it"), "Is? it");
    assert_eq!(trim_question_marks("???"), "");
    assert_eq!(trim_question_marks(""), "");
    assert_eq!(trim_question_marks("é?"), "é");
}

#[test]
fn render_variable_by_kind() {
    assert_eq!(render_variable("Tuner?", "Yes", true, false), "Tuner");
    assert_eq!(render_variable("Tuner?", "no", false, true), "No no");
    assert_eq!(render_variable("Tuner?", "Maybe", false, false), "Maybe");
    assert_eq!(render_variable("Tuner?", "x", true, true), "Tuner");
}

#[test]
fn equals_ignoring_case_folds_letters() {
    assert!(equals_ignoring_case("yes", "yes"));
    assert!(equals_ignoring_case("YeS", "yes"));
    assert!(!equals_ignoring_case("yes", "no"));
    assert!(!equals_ignoring_case("yes", "yes "));
    assert!(equals_ignoring_case("Maße", "MASSE"));
    assert!(!equals_ignoring_case("MASSE", "mase"));
}
