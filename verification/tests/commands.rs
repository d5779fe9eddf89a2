use rustique::answers::Pick;
use rustique::delete::{
    changes_sync, deleted_list, forget_deleted, moves_zip, not_deleted_notice, plan_deletions,
    plan_orphans, show_deleted, unable_to_iterate, unable_to_move, Deletion, ModMetadata,
};
use rustique::delete_args::{DeleteArgAllVals, DeleteArgs};
use rustique::errors::RustiqueError;
use rustique::install::{
    after_lookup, already_installed_notice, choose_installs, choose_pin, combine_pins, complete_missing,
    invalid_mod_id, settle_pick, skip_installed,
};
use rustique::install_manager::{ApiMod, Install};
use rustique::keyed::ModMap;
use rustique::messages::{CellAlignment, Color, Report};
use rustique::package::Package;
use rustique::requested::requested_mods;
use rustique::sync::ModSyncInfo;
use rustique::update::{
    installed_mods, next_cleanup_action, plan_updates, select_updates, updatable_mods,
    CleanupAction, CleanupEvent,
};
use std::path::PathBuf;

fn strings(texts: &[&str]) -> Vec<String> {
    texts.iter().map(|s| s.to_string()).collect()
}

fn split(text: &str) -> (String, Option<String>) {
    match text.split_once('@') {
        Some((id, version)) => (id.to_lowercase(), Some(format!("={version}"))),
        None => (text.to_lowercase(), None),
    }
}

fn synced(mods: &[(&str, &str, &str, bool)]) -> ModMap<ModSyncInfo> {
    let mut map = ModMap::new();
    for (name, installed, latest, link) in mods {
        map.insert(
            name.to_string(),
            ModSyncInfo {
                mod_name: format!("{name} mod"),
                installed_version: installed.to_string(),
                latest_known_version: latest.to_string(),
                latest_download_url: format!("url/{name}"),
                file_name: format!("{name}.zip"),
                is_symlink: *link,
            },
        );
    }
    map
}

fn site(mods: &[(&str, &[&'static str])]) -> ModMap<ApiMod<Vec<&'static str>>> {
    let mut map = ModMap::new();
    for (id, releases) in mods {
        map.insert(
            id.to_string(),
            ApiMod {
                mod_id: "17".to_string(),
                url_alias: None,
                name: Some(format!("{id} mod")),
                releases: releases.to_vec(),
            },
        );
    }
    map
}

/// Picks the last release where there is no condition, else the one that the condition equals.
fn pick(releases: &Vec<&'static str>, package: &Package, game: &str, unstable: bool) -> Pick {
    let found = match &package.pinned_version {
        None => releases.last(),
        Some(condition) => releases.iter().find(|r| format!("={r}") == *condition),
    };
    match found {
        Some(version) => Ok((version.to_string(), format!("{game}/{unstable}/{version}"))),
        None => Err(format!("nothing for {:?}", package.pinned_version)),
    }
}

fn latest(releases: &Vec<&'static str>, unstable: bool) -> (String, String) {
    (releases.last().unwrap().to_string(), format!("latest/{unstable}"))
}

#[test]
fn typed_mods_are_split() {
    let map = requested_mods(&strings(&["Alpha", "beta@1", "alpha@2", "beta"]), &split);
    assert_eq!(map.names(), ["alpha", "beta"]);
    assert_eq!(map.get("alpha").unwrap(), &Some("=2".to_string()));
    assert_eq!(map.get("beta").unwrap(), &None);
}

#[test]
fn typed_versions_and_pins_both_hold() {
    assert_eq!(combine_pins("=1.2", "<2"), "=1.2, <2");
    assert_eq!(combine_pins(" * ", "<2"), "<2");
    assert_eq!(combine_pins("\u{3000}*\n", "<2"), "<2");
    assert_eq!(combine_pins("*.1", "<2"), "*.1, <2");
    assert_eq!(combine_pins("=1.2.3", " * "), "=1.2.3");
    assert_eq!(combine_pins("*", "*"), "*");
    assert_eq!(choose_pin(Some("=1"), Some("<2"), false), Some("=1, <2".to_string()));
    assert_eq!(choose_pin(Some("=1"), Some("*"), false), Some("=1".to_string()));
    assert_eq!(choose_pin(Some("=1"), Some("<2"), true), Some("=1".to_string()));
    assert_eq!(choose_pin(Some("=1"), None, false), Some("=1".to_string()));
    assert_eq!(choose_pin(None, Some("<2"), true), Some("<2".to_string()));
    assert_eq!(choose_pin(None, None, false), None);
}

#[test]
fn installed_mods_are_skipped_unless_forced_or_versioned() {
    let installed = synced(&[("a", "1", "1", false), ("b", "1", "1", false)]);
    let typed = strings(&["a", "b@2", "c"]);
    let (kept, already) = skip_installed(requested_mods(&typed, &split), &installed, false);
    assert_eq!(kept.names(), ["b", "c"]);
    assert_eq!(kept.get("b").unwrap(), &Some("=2".to_string()));
    assert_eq!(already, ["a"]);
    let (kept, already) = skip_installed(requested_mods(&typed, &split), &installed, true);
    assert_eq!(kept.names(), ["a", "b", "c"]);
    assert!(already.is_empty());
}

#[test]
fn the_user_is_told_what_is_installed_already() {
    let notice = already_installed_notice(&strings(&["a", "b"])).unwrap();
    assert_eq!(notice.text, "Already installed, use -f to reinstall: [a], [b]");
    assert_eq!(notice.color, Color::Yellow);
    assert!(already_installed_notice(&Vec::new()).is_none());
    match invalid_mod_id("[\"x\"]") {
        RustiqueError::SimpleError(text) => assert_eq!(text, "Invalid modid [\"x\"]"),
        other => panic!("{other:?}"),
    }
}

#[test]
fn found_mods_are_chosen() {
    let found = site(&[("Alpha", &["1", "2"]), ("beta", &["1"]), ("gamma", &["1"])]);
    let requested = requested_mods(&strings(&["alpha@1", "beta@9", "gamma"]), &split);
    let packages = vec![Package {
        mod_id: "gamma".to_string(),
        pinned_version: Some("=5".to_string()),
    }];
    let (installs, rows) =
        choose_installs(&found, &requested, &packages, false, "1.20", true, &pick);
    assert_eq!(installs.len(), 1);
    assert_eq!(installs[0].mod_id, "alpha");
    assert_eq!(installs[0].mod_name, "Alpha mod");
    assert_eq!(installs[0].version_to_install, "1");
    assert_eq!(installs[0].download_url, "1.20/true/1");
    assert_eq!(installs[0].current_file_path, None);
    assert_eq!(
        rows,
        [
            "17\t- beta mod\nnothing for Some(\"=9\")",
            "17\t- gamma mod\nnothing for Some(\"=5\")",
        ]
    );
}

#[test]
fn a_pin_is_named_as_the_reason() {
    let found = site(&[("alpha", &["1"])]);
    let requested = requested_mods(&strings(&["alpha@1"]), &split);
    let packages = vec![Package {
        mod_id: "alpha".to_string(),
        pinned_version: Some("=2".to_string()),
    }];
    let (installs, rows) = choose_installs(&found, &requested, &packages, false, "", false, &pick);
    assert!(installs.is_empty());
    assert_eq!(
        rows,
        ["17\t- alpha mod\npinned to =2 in your config, which =1 can't satisfy.\n\
          Repin with [rustique config set -P <version> -w alpha], clear it with \
          [rustique config del -P alpha], or use -f to override it just this once."]
    );
    let (installs, rows) = choose_installs(&found, &requested, &packages, true, "", false, &pick);
    assert_eq!(installs[0].version_to_install, "1");
    assert!(rows.is_empty());
}

#[test]
fn a_row_is_trimmed() {
    let api_mod = ApiMod { mod_id: " 4 ".to_string(), url_alias: None, name: None, releases: () };
    let row = settle_pick("m".to_string(), &api_mod, None, None, false, Err("no".to_string()));
    assert_eq!(row.err().unwrap(), "4 \t-\nno");
}

#[test]
fn missing_dependencies_take_the_latest_release() {
    let missing = vec![
        Install { mod_id: "a".to_string(), ..Install::default() },
        Install {
            mod_id: "gone".to_string(),
            version_to_install: "3".to_string(),
            ..Install::default()
        },
    ];
    assert!(complete_missing(missing.clone(), &site(&[]), false, &latest).is_none());
    let done = complete_missing(missing, &site(&[("a", &["1", "2"])]), false, &latest).unwrap();
    assert_eq!(done[0].mod_id, "a");
    assert_eq!(done[0].mod_name, "a mod");
    assert_eq!(done[0].version_to_install, "2");
    assert_eq!(done[0].download_url, "latest/false");
    assert_eq!(done[1].mod_id, "gone");
    assert_eq!(done[1].mod_name, "");
    assert_eq!(done[1].version_to_install, "3");
}

#[test]
fn links_are_installed_but_not_updated() {
    let all = synced(&[("A@1", "1", "2", false), ("b", "1", "2", true), ("a@2", "2", "3", false)]);
    let installed = installed_mods(&all, &split);
    assert_eq!(installed.names(), ["a", "b"]);
    // the last one in the order of the names counts
    assert_eq!(installed.get("a").unwrap().installed_version, "2");
    let updatable = updatable_mods(&all, &split);
    assert_eq!(updatable.names(), ["a"]);
}

#[test]
fn typed_ids_select_the_mods() {
    let updatable = || synced(&[("a", "1", "2", false), ("b", "1", "2", false)]);
    let (mods, notices) = select_updates(updatable(), &Vec::new());
    assert_eq!(mods.unwrap().names(), ["a", "b"]);
    assert!(notices.is_empty());
    let (mods, notices) = select_updates(updatable(), &strings(&["B", "Nope", "b"]));
    assert_eq!(mods.unwrap().names(), ["b"]);
    assert_eq!(notices.len(), 1);
    assert_eq!(
        notices[0].text,
        "\u{1b}[31mnope\u{1b}[39m is not a installed mod, check your modid and try again"
    );
    assert_eq!(notices[0].color, Color::Yellow);
    let (mods, notices) = select_updates(updatable(), &strings(&["x", "y"]));
    match mods.err().unwrap() {
        RustiqueError::SimpleError(text) => {
            assert_eq!(text, "No valid update ids or the mod dir is empty..\n\r");
        }
        other => panic!("{other:?}"),
    }
    assert_eq!(notices.len(), 2);
    // with no id typed, an empty directory is no error
    assert!(select_updates(synced(&[]), &Vec::new()).0.unwrap().is_empty());
}

#[test]
fn only_outdated_mods_are_updated() {
    let mods = synced(&[
        ("", "1", "2", false),
        ("Old", "1", "2", false),
        ("current", "2", "2", false),
        ("lost", "1", "", false),
    ]);
    let (installs, rows) = plan_updates(&mods, &|name: &str| PathBuf::from("mods").join(name));
    assert_eq!(installs.len(), 1);
    assert_eq!(installs[0].mod_id, "old");
    assert_eq!(installs[0].mod_name, "Old mod");
    assert_eq!(installs[0].version_to_install, "2");
    assert_eq!(installs[0].download_url, "url/Old");
    assert_eq!(installs[0].current_file_path, Some(PathBuf::from("mods").join("Old.zip")));
    assert_eq!(
        rows,
        ["lost\nNo version information from the last sync. It may no longer be on the mod site, \
          or nothing matches your pinned constraints."]
    );
    // a mod without an id is not reported either
    let (installs, rows) = plan_updates(&synced(&[("", "1", "", false)]), &|_: &str| PathBuf::new());
    assert!(installs.is_empty());
    assert!(rows.is_empty());
}

fn metadata(files: &[(&str, &str, Option<&str>)]) -> ModMap<ModMetadata> {
    let mut map = ModMap::new();
    for (file, id, version) in files {
        map.insert(
            file.to_string(),
            ModMetadata {
                mod_id: id.to_string(),
                version: version.map(|v| v.to_string()),
                dependencies: Vec::new(),
            },
        );
    }
    map
}

/// Files named after their mods, each with what it needs.
fn needing(files: &[(&str, &[&str])]) -> ModMap<ModMetadata> {
    let mut map = ModMap::new();
    for (id, dependencies) in files {
        map.insert(
            format!("{id}.zip"),
            ModMetadata {
                mod_id: id.to_string(),
                version: Some("1".to_string()),
                dependencies: strings(dependencies),
            },
        );
    }
    map
}

/// A version meets `=version`. Versions that hold a question mark cannot be compared.
fn compare(required: &str, installed: &str) -> Option<bool> {
    if installed.contains('?') {
        None
    } else {
        Some(required == format!("={installed}"))
    }
}

fn files_of(deletions: &[Deletion]) -> Vec<&str> {
    deletions.iter().map(|d| d.file_name.as_str()).collect()
}

#[test]
fn requested_files_are_deleted() {
    let all = metadata(&[
        ("a1.zip", "Alpha", Some("1")),
        ("a2.zip", "alpha", Some("2")),
        ("b.zip", "beta", None),
        ("c.zip", "gamma", Some("?")),
        ("d.zip", "delta", Some("1")),
    ]);
    let plan = |typed: &[&str]| {
        plan_deletions(&all, &requested_mods(&strings(typed), &split), &compare)
    };
    assert_eq!(files_of(&plan(&["alpha"])), ["a1.zip", "a2.zip"]);
    assert_eq!(files_of(&plan(&["alpha@2"])), ["a2.zip"]);
    assert_eq!(files_of(&plan(&["beta@0.0.0"])), ["b.zip"]);
    assert!(plan(&["gamma@?"]).is_empty());
    assert_eq!(files_of(&plan(&["gamma"])), ["c.zip"]);
    assert!(plan(&["unknown"]).is_empty());
    let deletions = plan(&["ALPHA@1", "beta"]);
    assert_eq!(deletions[0].mod_id, "alpha");
    assert_eq!(deletions[0].version, "1");
    assert_eq!(deleted_list(&deletions), "alpha@1:a1.zip], [beta@0.0.0:b.zip");
}

fn deletion(mod_id: &str, file_name: &str) -> Deletion {
    Deletion {
        mod_id: mod_id.to_string(),
        version: "1".to_string(),
        file_name: file_name.to_string(),
    }
}

#[test]
fn dependencies_go_along_unless_still_needed() {
    let all = needing(&[
        ("App", &["LibA", "LibB", "game"]),
        ("liba", &["libc"]),
        ("libb", &[]),
        ("libc", &[]),
        ("other", &["LIBB"]),
        ("alone", &[]),
    ]);
    let deleted = vec![deletion("app", "App.zip")];
    let orphans = plan_orphans(true, &all, &all, &deleted);
    // libb is still needed, and libc was needed by liba alone
    assert_eq!(files_of(&orphans), ["liba.zip", "libc.zip"]);
    assert_eq!(orphans[0].mod_id, "liba");
    assert_eq!(orphans[0].version, "1");
    assert!(plan_orphans(false, &all, &all, &deleted).is_empty());
    assert!(plan_orphans(true, &all, &all, &Vec::new()).is_empty());
    let deleted = vec![deletion("app", "App.zip"), deletion("other", "other.zip")];
    assert_eq!(
        files_of(&plan_orphans(true, &all, &all, &deleted)),
        ["liba.zip", "libb.zip", "libc.zip"]
    );
}

#[test]
fn a_copy_that_is_left_still_needs_its_dependencies() {
    let mut all = needing(&[("app", &["lib"]), ("lib", &["lib"])]);
    all.insert(
        "app2.zip".to_string(),
        ModMetadata {
            mod_id: "APP".to_string(),
            version: None,
            dependencies: strings(&["Lib"]),
        },
    );
    let deleted = vec![deletion("app", "app.zip")];
    assert!(plan_orphans(true, &all, &all, &deleted).is_empty());
    let deleted = vec![deletion("app", "app.zip"), deletion("app", "app2.zip")];
    // that it needs itself is no reason to stay
    assert_eq!(files_of(&plan_orphans(true, &all, &all, &deleted)), ["lib.zip"]);
}

#[test]
fn a_link_still_needs_its_dependencies() {
    let files = &[("app", &["lib", "other"][..]), ("lib", &[]), ("other", &[])];
    let real = needing(files);
    let mut everything = needing(files);
    everything.insert(
        "pack.zip".to_string(),
        ModMetadata {
            mod_id: "pack".to_string(),
            version: None,
            dependencies: strings(&["LIB"]),
        },
    );
    let deleted = vec![deletion("app", "app.zip")];
    assert_eq!(files_of(&plan_orphans(true, &real, &everything, &deleted)), ["other.zip"]);
}

#[test]
fn the_sync_file_changes_where_something_was_deleted() {
    assert!(changes_sync(&vec![deletion("a", "a.zip")]));
    assert!(!changes_sync(&Vec::new()));
    match unable_to_iterate("gone") {
        RustiqueError::SimpleError(text) => assert_eq!(text, "Unable to iterate on dir: gone"),
        other => panic!("{other:?}"),
    }
    match unable_to_move("full") {
        RustiqueError::SimpleError(text) => assert_eq!(text, "Unable to move file: full"),
        other => panic!("{other:?}"),
    }
}

#[test]
fn a_lookup_without_result_is_an_error() {
    assert!(after_lookup(false, &strings(&["a"])).is_ok());
    match after_lookup(true, &strings(&["a", "b\"@1"])).err().unwrap() {
        RustiqueError::SimpleError(text) => {
            assert_eq!(text, "Invalid modid [\"a\", \"b\\\"@1\"]");
        }
        other => panic!("{other:?}"),
    }
}

#[test]
fn empty_lists_are_not_shown() {
    let rows = strings(&["x"]);
    assert_eq!(
        Report::PinnedConstraints.title_of(&rows),
        Some("Failed to install mods due to pinned constraints")
    );
    assert_eq!(
        Report::MissingDependencies.title_of(&rows),
        Some("Dependencies that could not be installed")
    );
    assert_eq!(
        Report::NoVersionInformation.title_of(&rows),
        Some("Skipped, no version information")
    );
    assert_eq!(Report::PinnedConstraints.title_of(&Vec::new()), None);
}

#[test]
fn old_files_are_removed_after_their_backup() {
    let next = next_cleanup_action;
    assert_eq!(next(true, false, CleanupEvent::Installed), CleanupAction::BackUp);
    assert_eq!(next(true, false, CleanupEvent::BackedUp), CleanupAction::Remove);
    assert_eq!(next(true, false, CleanupEvent::Failed), CleanupAction::GiveUp);
    assert_eq!(next(true, true, CleanupEvent::BackedUp), CleanupAction::Show);
    assert_eq!(next(false, false, CleanupEvent::Installed), CleanupAction::Remove);
    assert_eq!(next(false, true, CleanupEvent::Installed), CleanupAction::Show);
    assert_eq!(next(false, false, CleanupEvent::Removed), CleanupAction::Show);
}

#[test]
fn a_mod_is_known_while_a_copy_is_left() {
    let all = metadata(&[
        ("a1.zip", "Alpha", Some("1")),
        ("a2.zip", "alpha", Some("2")),
        ("b.zip", "beta", None),
    ]);
    let known =
        || synced(&[("alpha", "1", "1", false), ("beta", "1", "1", false), ("c", "1", "1", false)]);
    let mut left = known();
    forget_deleted(&mut left, &all, &vec![deletion("alpha", "a1.zip"), deletion("beta", "b.zip")]);
    assert_eq!(left.names(), ["alpha", "c"]);
    let mut left = known();
    let both = vec![deletion("alpha", "a1.zip"), deletion("alpha", "a2.zip")];
    forget_deleted(&mut left, &all, &both);
    assert_eq!(left.names(), ["beta", "c"]);
    let mut left = known();
    forget_deleted(&mut left, &all, &Vec::new());
    assert_eq!(left.len(), 3);
}

#[test]
fn what_was_not_deleted_is_named() {
    let requested = requested_mods(&strings(&["a", "b", "c"]), &split);
    let notice = not_deleted_notice(&requested, &vec![deletion("b", "b.zip")]).unwrap();
    assert_eq!(
        notice.text,
        "Nothing deleted for: [a], [c]. Check the modid and version with [Rustique list]"
    );
    assert_eq!(notice.color, Color::Yellow);
    let all = vec![deletion("a", "x"), deletion("b", "y"), deletion("c", "z")];
    assert!(not_deleted_notice(&requested, &all).is_none());
}

#[test]
fn deleted_mods_are_shown() {
    let (title, list) = show_deleted("a], [b");
    assert_eq!(title.text, "Successfully deleted:");
    assert_eq!(title.color, Some(Color::Green));
    assert_eq!(list.text, "[a], [b]");
    assert_eq!(list.color, Some(Color::Magenta));
    assert_eq!(list.alignment, Some(CellAlignment::Right));
}

#[test]
fn zips_are_moved() {
    assert!(moves_zip("a.zip", true, false));
    assert!(moves_zip("a.zip", false, true));
    assert!(!moves_zip("a.zip", true, true));
    assert!(!moves_zip("a.txt", false, false));
}

#[test]
fn all_of_a_kind_is_deleted() {
    let both = DeleteArgAllVals::Both;
    assert!(both.covers_mods() && both.covers_backups());
    assert!(DeleteArgAllVals::Mods.covers_mods() && !DeleteArgAllVals::Mods.covers_backups());
    assert!(!DeleteArgAllVals::Backups.covers_mods() && DeleteArgAllVals::Backups.covers_backups());
    let args = DeleteArgs {
        mod_id: strings(&["a"]),
        mod_backups: false,
        with_deps: false,
        all: Some(both),
    };
    assert_eq!(args.all, Some(DeleteArgAllVals::Both));
}
