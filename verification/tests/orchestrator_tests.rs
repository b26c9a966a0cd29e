use simple_prefs::codec::serialize;
use simple_prefs::orchestrator::PrefsState;
use simple_prefs::pipeline::{LoadPoll, LoadState};
use simple_prefs::status::{PrefsSettings, PrefsStatus};
use simple_prefs::value::{FieldValue, PrefField, PreferenceSet};

fn game_defaults() -> PreferenceSet {
    PreferenceSet {
        fields: vec![
            PrefField { name: String::from("volume"), value: FieldValue::UInt(50) },
            PrefField {
                name: String::from("difficulty"),
                value: FieldValue::Choice(String::from("Normal")),
            },
        ],
    }
}

fn game_settings() -> PrefsSettings {
    PrefsSettings::for_names("game", "GamePrefs")
}

fn started() -> PrefsState {
    let mut st = PrefsState::register(game_defaults(), game_settings());
    st.start_load();
    st
}

#[test]
fn settings_for_names_build_the_conventional_places() {
    let s = game_settings();
    assert_eq!(s.path, "game_prefs.ron");
    assert_eq!(s.local_storage_key, "game::GamePrefs.ron");
}

#[test]
fn status_starts_not_loaded() {
    assert!(!PrefsStatus::default().loaded);
}

#[test]
fn register_installs_defaults() {
    let st = PrefsState::register(game_defaults(), game_settings());
    assert_eq!(st.current, game_defaults());
    assert!(!st.status.loaded);
    assert!(matches!(st.load, LoadState::Idle));
}

#[test]
fn absent_record_loads_defaults_and_flips_loaded() {
    let mut st = started();
    let save = st.tick(LoadPoll::Ready(None));
    assert!(save.is_none());
    assert!(st.status.loaded);
    assert_eq!(st.current, game_defaults());
    assert!(matches!(st.load, LoadState::Applied));
}

#[test]
fn tick_before_load_completes_spawns_no_save() {
    let mut st = started();
    let save = st.tick(LoadPoll::Pending);
    assert!(save.is_none());
    assert!(!st.status.loaded);
    assert!(matches!(st.load, LoadState::Running));
}

#[test]
fn tick_without_changes_spawns_no_save() {
    let mut st = started();
    st.tick(LoadPoll::Ready(None));
    let save = st.tick(LoadPoll::Pending);
    assert!(save.is_none());
    let save = st.tick(LoadPoll::Pending);
    assert!(save.is_none());
}

#[test]
fn load_tick_spawns_no_save_though_every_field_changed() {
    let mut st = started();
    let record = String::from("(\n    volume: 80,\n    difficulty: Hard,\n)");
    let save = st.tick(LoadPoll::Ready(Some(record)));
    assert!(save.is_none());
    assert_eq!(st.current.fields[0].value, FieldValue::UInt(80));
    assert_eq!(st.current.fields[1].value, FieldValue::Choice(String::from("Hard")));
    let save = st.tick(LoadPoll::Pending);
    assert!(save.is_none());
}

#[test]
fn partial_record_populates_only_its_fields() {
    let mut st = started();
    let record = String::from("(\n    difficulty: Hard,\n)");
    st.tick(LoadPoll::Ready(Some(record)));
    assert_eq!(st.current.fields[0].value, FieldValue::UInt(50));
    assert_eq!(st.current.fields[1].value, FieldValue::Choice(String::from("Hard")));
    assert!(st.status.loaded);
}

#[test]
fn corrupt_record_degrades_to_defaults() {
    let mut st = started();
    let record = String::from("this is not a record");
    let save = st.tick(LoadPoll::Ready(Some(record)));
    assert!(save.is_none());
    assert!(st.status.loaded);
    assert_eq!(st.current, game_defaults());
}

#[test]
fn two_mutations_in_one_tick_spawn_one_save_with_both() {
    let mut st = started();
    st.tick(LoadPoll::Ready(None));
    st.set_field(0, FieldValue::UInt(60));
    st.set_field(1, FieldValue::Choice(String::from("Hard")));
    let save = st.tick(LoadPoll::Pending).expect("one save task for the tick");
    assert_eq!(save.snapshot.fields[0].value, FieldValue::UInt(60));
    assert_eq!(save.snapshot.fields[1].value, FieldValue::Choice(String::from("Hard")));
    let save = st.tick(LoadPoll::Pending);
    assert!(save.is_none());
}

#[test]
fn one_mutation_spawns_one_save_per_qualifying_tick() {
    let mut st = started();
    st.tick(LoadPoll::Ready(None));
    st.set_field(0, FieldValue::UInt(10));
    assert!(st.tick(LoadPoll::Pending).is_some());
    assert!(st.tick(LoadPoll::Pending).is_none());
    st.set_field(0, FieldValue::UInt(11));
    assert!(st.tick(LoadPoll::Pending).is_some());
}

#[test]
fn lifecycle_scenario_save_and_restart() {
    let mut st = started();
    let save = st.tick(LoadPoll::Ready(None));
    assert!(save.is_none());
    assert_eq!(st.current.fields[0].value, FieldValue::UInt(50));
    assert_eq!(st.current.fields[1].value, FieldValue::Choice(String::from("Normal")));
    assert!(st.status.loaded);

    st.set_field(0, FieldValue::UInt(60));
    let save = st.tick(LoadPoll::Pending).expect("exactly one save task");
    let record = serialize(&save.snapshot).unwrap();
    assert_eq!(record, "(\n    volume: 60,\n    difficulty: Normal,\n)");

    let mut restarted = started();
    let save = restarted.tick(LoadPoll::Ready(Some(record)));
    assert!(save.is_none());
    assert_eq!(restarted.current.fields[0].value, FieldValue::UInt(60));
    assert_eq!(restarted.current.fields[1].value, FieldValue::Choice(String::from("Normal")));
    assert!(restarted.status.loaded);
}

#[test]
fn set_field_updates_value_and_flag() {
    let mut st = started();
    st.tick(LoadPoll::Ready(None));
    assert!(!st.changed[0]);
    st.set_field(0, FieldValue::UInt(99));
    assert!(st.changed[0]);
    assert!(!st.changed[1]);
    assert_eq!(st.current.fields[0].value, FieldValue::UInt(99));
    assert_eq!(st.current.fields[0].name, "volume");
}
