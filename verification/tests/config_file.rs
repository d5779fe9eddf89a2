use rustique::config::{
    already_initialized, backup_extension, backup_extension_at, backup_message, config_place,
    created_text, default_sync_time, find_new_keys, missing_modpack_dirs, modpack_dir_failed,
    new_options_message, next_load_action, next_merge_action, plan_new_keys, Config, ConfigEntry,
    DefaultDirs, LoadAction, LoadEvent, MergeAction, MergeEvent, ModPacks, NewKeys, FALLBACK_BASE,
};
use rustique::config_merge::{count_keys, merge_new_keys};
use rustique::errors::{ConfigStep, RustiqueError};
use rustique::install_manager::ResolveOptions;
use rustique::messages::{Attribute, CellAlignment, Color};

fn table(text: &str) -> toml::Table {
    text.parse::<toml::Table>().unwrap()
}

fn merge(existing: &str, defaults: &str) -> (toml::Table, Vec<String>) {
    let mut merged = table(existing);
    let mut added = Vec::new();
    merge_new_keys(&mut merged, &table(defaults), "", &mut added);
    (merged, added)
}

fn text_of(error: RustiqueError) -> String {
    match error {
        RustiqueError::ConfigFileError(text) => format!("config: {text}"),
        RustiqueError::SimpleError(text) => format!("simple: {text}"),
    }
}

fn dirs() -> DefaultDirs {
    DefaultDirs {
        mod_dir: "mods".to_string(),
        backup_mods_dir: "backups".to_string(),
        modpack_dir: "packs".to_string(),
        game_download_dir: "downloads".to_string(),
    }
}

const FULL: &str = "a = 1\nlist = [1]\n[modpacks]\ndir = \"x\"\nenabled = []\n[table]\ncol = 1\nrow = 2\n";

#[test]
fn keys_are_counted_but_for_the_table_section() {
    assert_eq!(count_keys(&table("")), Some(0));
    // a, list, modpacks, dir, enabled, table
    assert_eq!(count_keys(&table(FULL)), Some(6));
    assert_eq!(count_keys(&table("[a]\n[a.table]\nx = 1\ny = 2\n")), Some(2));
    assert_eq!(count_keys(&table("[a]\n[a.b]\nx = 1\ny = 2\n")), Some(4));
}

#[test]
fn user_values_win() {
    let (merged, added) = merge("a = 7\nlist = []\n[modpacks]\ndir = \"mine\"\n", FULL);
    assert_eq!(merged["a"].as_integer(), Some(7));
    assert_eq!(merged["list"].as_array().unwrap().len(), 0);
    assert_eq!(merged["modpacks"]["dir"].as_str(), Some("mine"));
    assert!(merged["modpacks"]["enabled"].as_array().unwrap().is_empty());
    assert_eq!(merged["table"]["row"].as_integer(), Some(2));
    assert_eq!(added, ["modpacks.enabled", "table"]);
}

#[test]
fn all_keys_are_supplied_and_nothing_is_invented() {
    let (merged, added) = merge("", FULL);
    assert_eq!(merged, table(FULL));
    assert_eq!(added, ["a", "list", "modpacks", "table"]);
}

#[test]
fn the_table_section_is_left_alone() {
    let (merged, added) = merge("[table]\ncol = 9\n", "[table]\ncol = 1\nrow = 2\n");
    assert_eq!(merged, table("[table]\ncol = 9\n"));
    assert!(added.is_empty());
}

#[test]
fn a_value_in_place_of_a_section_stays() {
    let (merged, added) = merge("modpacks = 3\n", "[modpacks]\ndir = \"x\"\n");
    assert_eq!(merged["modpacks"].as_integer(), Some(3));
    assert!(added.is_empty());
}

#[test]
fn merging_twice_adds_nothing() {
    let (merged, _) = merge("b = 1\n", FULL);
    let mut again = merged.clone();
    let mut added = vec!["before".to_string()];
    merge_new_keys(&mut again, &table(FULL), "", &mut added);
    assert_eq!(again, merged);
    assert_eq!(added, ["before"]);
}

#[test]
fn paths_hang_below_the_prefix() {
    let mut existing = table("");
    let mut added = Vec::new();
    merge_new_keys(&mut existing, &table("x = 1\n"), "up.there", &mut added);
    assert_eq!(added, ["up.there.x"]);
}

#[test]
fn new_keys_are_planned() {
    let full = table(FULL);
    let new = plan_new_keys("a = 7\n", Some(&full)).unwrap().unwrap();
    assert_eq!(new.added, ["list", "modpacks", "table"]);
    let text = new.text().unwrap();
    let mut expected = full.clone();
    expected.insert("a".to_string(), toml::Value::Integer(7));
    assert_eq!(table(&text), expected);
}

#[test]
fn every_missing_key_is_found() {
    let full = table("a = 1\nb = 2\n");
    assert!(plan_new_keys("a = 5\nb = 6\n", Some(&full)).unwrap().is_none());
    // a key that is no longer known does not hide one that is new
    let new = plan_new_keys("a = 5\nold = 6\n", Some(&full)).unwrap().unwrap();
    assert_eq!(new.added, ["b"]);
    assert_eq!(new.table, table("a = 5\nb = 2\nold = 6\n"));
    assert!(find_new_keys(table("a = 5\nb = 6\nold = 1\n"), &full).is_none());
    assert_eq!(find_new_keys(table("b = 6\n"), &full).unwrap().added, ["a"]);
}

#[test]
fn a_config_that_is_no_table_adds_nothing() {
    assert!(plan_new_keys("a = 1\n", None).unwrap().is_none());
}

#[test]
fn a_file_that_cannot_be_read_again_is_an_error() {
    let error = text_of(plan_new_keys("a = = 1\n", None).err().unwrap());
    assert!(error.starts_with("config: Failed to re-read config as a toml table: TOML parse error"));
}

#[test]
fn new_keys_are_written_as_toml() {
    let new = NewKeys { table: table("x = 1\n[s]\ny = \"z\"\n"), added: Vec::new() };
    assert_eq!(new.text().unwrap(), "x = 1\n\n[s]\ny = \"z\"\n");
}

#[test]
fn defaults_are_those_of_a_new_user() {
    let config = Config::defaults(dirs(), 5u8);
    assert_eq!(config.mod_dir, "mods");
    assert_eq!(config.pinned_game_version, "");
    assert!(config.allow_unstable);
    assert!(!config.zip_mod_files);
    assert!(!config.backup_mods);
    assert_eq!(config.backup_mods_dir, "backups");
    assert!(config.show_execution_time);
    assert!(!config.notify_of_unzipped_mods);
    assert_eq!(config.game_download_dir, "downloads");
    assert!(config.check_for_updates);
    assert_eq!(config.modpacks.modpack_dir, "packs");
    assert!(config.modpacks.enabled.is_empty());
    assert!(config.modpacks.disabled.is_empty());
    assert!(config.pkg.is_empty());
    assert_eq!(config.sync_latest_game_version_file_every, default_sync_time());
    assert_eq!(config.sync_mod_search_file_every, 24);
    assert_eq!(config.table, 5);
    assert_eq!(ModPacks::kept_in("here".to_string()).modpack_dir, "here");
}

#[test]
fn options_come_from_the_config() {
    let mut config = Config::defaults(dirs(), ());
    config.pinned_game_version = "1.20".to_string();
    config.allow_unstable = false;
    let options = ResolveOptions::from_config(&config);
    assert_eq!(options.pinned_game_version, "1.20");
    assert!(!options.allow_unstable);
    assert!(options.apply_config_pins);
}

#[test]
fn the_config_lives_where_the_machine_says() {
    let place = config_place(true, Some("data"), Some("home"));
    assert_eq!((place.base, place.below), (Some("data"), vec!["rustique".to_string()]));
    let place = config_place(true, None, Some("home"));
    assert_eq!((place.base, place.below), (None, vec!["rustique".to_string()]));
    let place = config_place(false, Some("data"), Some("home"));
    assert_eq!(place.base, Some("home"));
    assert_eq!(place.below, [".config", "rustique"]);
    let place = config_place(false, Some("data"), None);
    assert_eq!((place.base, place.below), (None, vec!["rustique".to_string()]));
    assert_eq!(FALLBACK_BASE, "../..");
}

#[test]
fn the_config_directory_has_its_names() {
    assert_eq!(ConfigEntry::File.name(), "config.toml");
    assert_eq!(ConfigEntry::Modpacks.name(), "modpacks");
    assert_eq!(ConfigEntry::ModBackups.name(), "mod_backups");
}

#[test]
fn a_saved_file_is_left_alone() {
    let full = table(FULL);
    let text = NewKeys { table: full.clone(), added: Vec::new() }.text().unwrap();
    assert!(plan_new_keys(&text, Some(&full)).unwrap().is_none());
    assert_eq!(count_keys(&table(&text)), count_keys(&full));
}

#[test]
fn modpack_directories_are_created_once() {
    assert_eq!(missing_modpack_dirs(false), ["installed", "packs", "mypacks"]);
    assert!(missing_modpack_dirs(true).is_empty());
    assert_eq!(text_of(modpack_dir_failed("d", "full")), "simple: Failed to create d: full");
    assert_eq!(text_of(already_initialized()), "config: Config has already been initialized");
}

fn next(event: LoadEvent) -> LoadAction {
    next_load_action(event).unwrap()
}

#[test]
fn a_missing_config_is_written() {
    assert_eq!(next(LoadEvent::Begun { dir_exists: false }), LoadAction::CreateDir);
    assert_eq!(next(LoadEvent::DirCreated), LoadAction::FindFile);
    assert_eq!(next(LoadEvent::FileLookedFor { exists: false }), LoadAction::WriteDefaults);
    assert_eq!(next(LoadEvent::DefaultsWritten), LoadAction::UseNewDefaults);
}

#[test]
fn a_good_config_is_used() {
    assert_eq!(next(LoadEvent::Begun { dir_exists: true }), LoadAction::FindFile);
    assert_eq!(next(LoadEvent::FileLookedFor { exists: true }), LoadAction::SetUpModpacks);
    assert_eq!(next(LoadEvent::ModpacksSetUp), LoadAction::ReadFile);
    assert_eq!(next(LoadEvent::FileRead { parses: true }), LoadAction::AddNewKeys);
    assert_eq!(next(LoadEvent::NewKeysTried), LoadAction::UseParsed);
}

#[test]
fn a_broken_config_is_backed_up_before_it_is_replaced() {
    assert_eq!(next(LoadEvent::FileRead { parses: false }), LoadAction::BackUp);
    assert_eq!(next(LoadEvent::BackedUp), LoadAction::SaveDefaults);
    assert_eq!(next(LoadEvent::DefaultsSaved), LoadAction::UseDefaults);
}

#[test]
fn a_merge_backs_up_first() {
    let planned = |anything_new: bool| next_merge_action(MergeEvent::Planned { anything_new });
    assert_eq!(planned(false), MergeAction::Leave);
    assert_eq!(planned(true), MergeAction::BackUp);
    assert_eq!(next_merge_action(MergeEvent::BackedUp), MergeAction::Write);
    assert_eq!(next_merge_action(MergeEvent::Written), MergeAction::Tell);
}

#[test]
fn every_failed_step_has_its_complaint() {
    let complaints = [
        (ConfigStep::CreateDir, "Failed to create config directory: why"),
        (ConfigStep::SerializeDefault, "Failed to serialize default config: why"),
        (ConfigStep::CreateDefault, "Failed to create config file at: why"),
        (ConfigStep::WriteDefault, "Failed writing config file: why"),
        (ConfigStep::Open, "Failed to open config file: why"),
        (ConfigStep::Read, "Failed to read config file: why"),
        (ConfigStep::Reread, "Failed to re-read config as a toml table: why"),
        (ConfigStep::SerializeMerged, "Failed to serialize the merged config: why"),
        (ConfigStep::OpenForMerge, "Failed to open config file for the merge: why"),
        (ConfigStep::WriteMerged, "Failed to write the merged config: why"),
        (ConfigStep::Serialize, "Failed to serialize config: why"),
        (ConfigStep::Create, "Failed to create config file: why"),
        (ConfigStep::Write, "Failed to write config file: why"),
    ];
    for (step, complaint) in complaints {
        assert_eq!(text_of(step.failed("why")), format!("config: {complaint}"));
        let error = next_load_action(LoadEvent::Failed(step, "why".to_string())).err().unwrap();
        assert_eq!(text_of(error), format!("config: {complaint}"));
    }
}

#[test]
fn the_created_file_is_named_in_color() {
    assert_eq!(
        created_text("/c/config.toml"),
        "\u{1b}[32mSuccessfully created config file: \u{1b}[39m \u{1b}[93m/c/config.toml\u{1b}[39m"
    );
}

#[test]
fn backups_carry_the_time() {
    assert_eq!(backup_extension(0, 0).unwrap(), "toml.bak-19700101_000000");
    assert_eq!(backup_extension(1431648000, 0).unwrap(), "toml.bak-20150515_000000");
    assert_eq!(backup_extension(1431648000, -3600).unwrap(), "toml.bak-20150514_230000");
    assert_eq!(backup_extension(253_402_300_799, 0).unwrap(), "toml.bak-99991231_235959");
    assert!(backup_extension(253_402_300_799, 86_399).is_some());
    assert!(backup_extension(0, 86_400).is_none());
    assert!(backup_extension(i64::MAX, 0).is_none());
    assert_eq!(backup_extension_at("now"), "toml.bak-now");
}

#[test]
fn the_user_is_told_of_new_options() {
    let added = vec!["a".to_string(), "b.c".to_string()];
    let message = new_options_message(&added, "/c/old");
    let header = message.header.unwrap();
    assert_eq!(header.text, "Your config has new options available");
    assert_eq!(header.color, Some(Color::Green));
    assert_eq!(header.attributes, [Attribute::Bold]);
    assert_eq!(header.alignment, Some(CellAlignment::Center));
    let rows: Vec<&str> = message.message.iter().map(|c| c.text.as_str()).collect();
    assert_eq!(
        rows,
        [
            "The following were added with their default values:",
            "[a], [b.c]",
            "Your existing settings were left alone. Previous config backed up to:",
            "/c/old",
        ]
    );
    assert_eq!(message.message[1].color, Some(Color::Magenta));
    assert_eq!(message.message[1].attributes, [Attribute::Bold]);
    assert_eq!(message.message[3].color, Some(Color::Green));
    assert!(message.message[3].attributes.is_empty());
}

#[test]
fn the_user_is_told_of_a_backup() {
    let message = backup_message("/c/old", Some("bad line".to_string()));
    assert_eq!(
        message.header.unwrap().text,
        "Rustique has discovered an error with your config.toml file"
    );
    assert_eq!(message.message.len(), 5);
    assert_eq!(message.message[1].text, "/c/old");
    assert_eq!(message.message[3].text, "");
    assert_eq!(message.message[3].color, None);
    assert_eq!(message.message[4].text, "bad line");
    assert_eq!(message.message[4].attributes, [Attribute::Bold, Attribute::Italic]);
    assert_eq!(message.message[4].alignment, Some(CellAlignment::Left));
    assert_eq!(backup_message("p", None).message[4].text, "");
}
