use alkyon::json::{read, written};
use alkyon::llm::MODEL;
use alkyon::model::Scope;
use alkyon::settings::{
    layers, load, merge, store, Layer, Settings, MIN_DEBOUNCE_MS, PROJECT_FILE, USER_FILE,
};

#[test]
fn nothing_anywhere_gives_the_defaults() {
    let defaults = load(None, None);
    assert!(defaults.completion.dropdown, "the offline one is on");
    assert!(
        !defaults.completion.ghost_text,
        "the one that leaves the machine is not"
    );
    assert_eq!(defaults.completion.model, MODEL);
    assert_eq!(defaults.completion.debounce_ms, 250);
    assert_eq!(defaults.completion.max_tables, 12);
}

#[test]
fn the_folder_overrides_one_setting_and_inherits_the_others() {
    let user = r#"{"completion": {"ghost_text": true, "debounce_ms": 400, "model": "mine"}}"#;
    let project = r#"{"completion": {"ghost_text": false}}"#;

    let settings = load(Some(user), Some(project));
    assert!(!settings.completion.ghost_text, "the folder said no");
    assert_eq!(settings.completion.debounce_ms, 400, "the user's, still");
    assert_eq!(settings.completion.model, "mine", "the user's, still");
}

#[test]
fn a_user_file_alone_is_in_force_everywhere() {
    let user = r#"{"completion": {"ghost_text": true}}"#;
    for project in [None, Some("{}")] {
        let settings = load(Some(user), project);
        assert!(settings.completion.ghost_text, "project = {project:?}");
        assert!(settings.completion.dropdown, "and the rest is default");
    }
}

#[test]
fn a_broken_layer_is_skipped_and_the_other_still_applies() {
    let settings = load(
        Some("{ not json"),
        Some(r#"{"completion": {"ghost_text": true}}"#),
    );
    assert!(settings.completion.ghost_text, "the readable one applied");
    assert!(settings.completion.dropdown);
}

#[test]
fn storing_creates_the_directory_and_round_trips() {
    let mut settings = Settings::default();
    settings.completion.ghost_text = true;
    settings.completion.dropdown = false;
    settings.completion.debounce_ms = 300;
    let raw = store(&settings);

    let read = load(None, Some(&raw));
    assert!(read.completion.ghost_text);
    assert!(!read.completion.dropdown);
    assert_eq!(read.completion.debounce_ms, 300);
    assert!(raw.ends_with("}\n"), "{raw:?}");
}

#[test]
fn the_layers_say_where_they_are_and_whether_they_exist() {
    let user = format!("/config/{USER_FILE}");
    let found = layers(Some(&user), Some("/project"), true, false, false);
    assert_eq!(found[0].scope, Scope::User);
    assert!(found[0].present, "written just now");
    assert!(found[0].shown.ends_with(USER_FILE), "{}", found[0].shown);

    assert_eq!(found[1].scope, Scope::Project);
    assert!(!found[1].present, "no file in the folder yet");
    assert_eq!(found[1].shown, PROJECT_FILE);
    assert_eq!(
        found[1].file.as_deref(),
        Some("/project/.alkyon/settings.json")
    );

    let none = layers(Some(&user), None, true, true, false);
    assert!(none[1].file.is_none());
    assert!(!none[1].present);
    assert_eq!(Layer::of(Scope::User, None, false).shown, USER_FILE);
}

#[test]
fn a_debounce_that_would_ask_on_every_keystroke_is_refused() {
    let mut settings = Settings::default();
    settings.completion.ghost_text = true;
    settings.completion.debounce_ms = 0;
    assert!(settings.clone().checked().is_err());

    settings.completion.ghost_text = false;
    assert!(settings.clone().checked().is_ok());

    settings.completion.ghost_text = true;
    settings.completion.debounce_ms = MIN_DEBOUNCE_MS;
    assert!(settings.checked().is_ok());
}

#[test]
fn a_model_without_a_name_is_refused() {
    let mut settings = Settings::default();
    settings.completion.model = "  ".to_owned();
    assert_eq!(
        settings.checked().err().unwrap().message(),
        "give the model a name"
    );
}

#[test]
fn settings_of_the_wrong_shape_are_the_defaults() {
    for wrong in [
        r#"{"completion": {"dropdown": "yes", "ghost_text": true}}"#,
        r#"{"completion": {"debounce_ms": -1}}"#,
        r#"{"completion": {"debounce_ms": 1.5}}"#,
        r#"{"completion": null}"#,
        "7",
    ] {
        let settings = load(Some(wrong), None);
        assert!(settings.completion.dropdown, "{wrong}");
        assert!(!settings.completion.ghost_text, "{wrong}");
        assert_eq!(settings.completion.debounce_ms, 250, "{wrong}");
    }
    let listed = load(Some(r#"[[false, true]]"#), None);
    assert!(!listed.completion.dropdown);
    assert!(listed.completion.ghost_text);
    let unknown = load(Some(r#"{"other": 1, "completion": {"model": "m"}}"#), None);
    assert_eq!(unknown.completion.model, "m");
}

#[test]
fn a_merge_goes_all_the_way_down() {
    let base = read(r#"{"a": {"b": 1, "c": 2}, "d": [1]}"#).unwrap();
    let over = read(r#"{"a": {"c": 3}, "d": null, "e": {}}"#).unwrap();
    assert_eq!(
        written(&merge(base, over)),
        r#"{"a":{"b":1,"c":3},"d":null,"e":{}}"#
    );
    assert!(read("{ not json").is_none());
}
