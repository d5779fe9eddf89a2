use rustique::answers::Pick;
use rustique::dependencies::{
    combined_requirement, highest_requester, resolve_dependency, Requester, VersionRules,
};
use rustique::install_manager::{
    dependency_requirement, merge_condition, resolve_dep_version, sort_by_name, ApiMod, Install,
    InstallRequest, Installed, ResolveFailure, ResolveOptions,
};
use rustique::keyed::ModMap;
use rustique::messages::Color;
use rustique::package::Package;
use rustique::resolve_installs::{
    merge_requests, mods_to_look_up, prepare_requests, resolve_request, resolve_requests,
};
use rustique::sync::ModSyncInfo;
use rustique::walk::{downloadable_dependencies, DependencyWalk, Setting};

type Releases = Vec<&'static str>;

fn has_operator(version: &str) -> bool {
    version.starts_with(['~', '=', '>', '<', '^'])
}

fn numbers(version: &str) -> Option<(u64, u64, u64)> {
    let parts: Vec<u64> = version.split('.').map_while(|p| p.parse().ok()).collect();
    match parts[..] {
        [major, minor, patch] => Some((major, minor, patch)),
        _ => None,
    }
}

fn combine(a: &str, b: &str) -> String {
    format!("{a}, {b}")
}

fn meets(version: &str, condition: &str) -> bool {
    let (major, minor, patch) = numbers(version).unwrap();
    condition.split(", ").all(|part| {
        let (a, b, c) = numbers(&part[1..]).unwrap();
        match &part[..1] {
            "~" => (major, minor) == (a, b) && patch >= c,
            _ => (major, minor, patch) == (a, b, c),
        }
    })
}

/// Picks the last release that meets the condition.
fn pick(releases: &Releases, package: &Package, game: &str, unstable: bool) -> Pick {
    let found = releases.iter().rev().find(|release| match &package.pinned_version {
        None => true,
        Some(condition) => meets(release, condition),
    });
    match found {
        Some(version) => Ok((version.to_string(), format!("{game}/{unstable}/{version}"))),
        None => Err(format!("{} has nothing for {:?}", package.mod_id, package.pinned_version)),
    }
}

fn rules() -> VersionRules<
    fn(&str) -> bool,
    fn(&str) -> Option<(u64, u64, u64)>,
    fn(&str) -> Option<(u64, u64, u64)>,
    fn(&str, &str) -> String,
    fn(&Releases, &Package, &str, bool) -> Pick,
> {
    VersionRules {
        has_semver_operator: has_operator,
        parse_numbers: numbers,
        parse_version: numbers,
        combine_version_reqs: combine,
        parse_pinned_version: pick,
    }
}

fn api_mod(alias: Option<&str>, releases: &[&'static str]) -> ApiMod<Releases> {
    ApiMod {
        mod_id: "17".to_string(),
        url_alias: alias.map(|a| a.to_string()),
        name: Some("Shown".to_string()),
        releases: releases.to_vec(),
    }
}

fn site(mods: &[(&str, &[&'static str])]) -> ModMap<ApiMod<Releases>> {
    let mut map = ModMap::new();
    for (id, releases) in mods {
        map.insert(id.to_string(), api_mod(Some(*id), releases));
    }
    map
}

fn pin(mod_id: &str, version: &str) -> Package {
    Package { mod_id: mod_id.to_string(), pinned_version: Some(version.to_string()) }
}

fn request(mod_id: &str, version: Option<&str>, fallback: Option<&str>) -> InstallRequest {
    InstallRequest::new(mod_id.to_string())
        .with_version(version.map(|v| v.to_string()))
        .with_fallback(fallback.map(|v| v.to_string()))
}

fn requester(mod_id: &str, version: &str) -> Requester {
    Requester { mod_id: mod_id.to_string(), required_version: version.to_string() }
}

#[test]
fn declared_versions_become_conditions() {
    let requirement = |v: &str| dependency_requirement(v, &has_operator, &numbers);
    assert_eq!(requirement("2.3.1"), Some("~2.3.1".to_string()));
    assert_eq!(requirement(" 2.3.1\n"), Some("~2.3.1".to_string()));
    assert_eq!(requirement(" >=1.0.0 "), Some(">=1.0.0".to_string()));
    assert_eq!(requirement(""), None);
    assert_eq!(requirement("  "), None);
    assert_eq!(requirement(" * "), None);
    assert_eq!(requirement("soon"), None);
    assert_eq!(requirement("10.0.123"), Some("~10.0.123".to_string()));
}

#[test]
fn a_requirement_requires_itself() {
    for declared in ["2.3.1", " >=1.0.0 ", "10.0.123"] {
        let condition = dependency_requirement(declared, &has_operator, &numbers).unwrap();
        assert_eq!(condition, condition.trim());
        assert!(has_operator(&condition));
        let again = dependency_requirement(&condition, &has_operator, &numbers);
        assert_eq!(again, Some(condition.clone()));
        let trimmed = dependency_requirement(declared.trim(), &has_operator, &numbers);
        assert_eq!(trimmed, Some(condition));
    }
}

#[test]
fn two_requests_are_their_merger() {
    let two = vec![
        request("A", Some("=1.0.0"), None),
        request("b", None, None),
        request("a", Some("~1.0.0"), Some("~2.0.0")),
    ];
    let one = vec![request("A", Some("=1.0.0, ~1.0.0"), Some("~2.0.0")), request("b", None, None)];
    let shape = |requests: Vec<InstallRequest>| {
        merge_requests(requests, &combine)
            .into_iter()
            .map(|r| (r.mod_id, r.version_req, r.fallback_req))
            .collect::<Vec<_>>()
    };
    assert_eq!(shape(two), shape(one));
}

#[test]
fn another_request_changes_nothing_else() {
    let found = site(&[("a", &["1.0.0"]), ("b", &["1.0.0"]), ("x", &["1.0.0"])]);
    let options = ResolveOptions {
        pinned_game_version: String::new(),
        allow_unstable: true,
        apply_config_pins: false,
    };
    let resolve = |requests: Vec<InstallRequest>, packages: Vec<Package>| {
        let merged = merge_requests(requests, &combine);
        let (installs, failures) =
            resolve_requests(merged, &found, &packages, &options, &combine, &pick);
        let installs: Vec<(String, String)> =
            installs.into_iter().map(|i| (i.mod_id, i.version_to_install)).collect();
        let failures: Vec<String> = failures.iter().map(|f| f.to_row()).collect();
        (installs, failures)
    };
    let others =
        || vec![request("a", None, None), request("b", Some("=9.0.0"), None)];
    let alone = resolve(others(), vec![]);
    let mut more = others();
    more.push(request("x", None, None));
    let (mut installs, failures) = resolve(more, vec![]);
    installs.retain(|(id, _)| id != "x");
    assert_eq!((installs, failures), alone);
    // pins that are not applied have no say
    assert_eq!(resolve(others(), vec![pin("a", "=7.0.0")]), alone);
}

#[test]
fn conditions_are_merged() {
    assert_eq!(merge_condition(Some("a"), Some("b"), &combine), Some("a, b".to_string()));
    assert_eq!(merge_condition(Some("a"), None, &combine), Some("a".to_string()));
    assert_eq!(merge_condition(None, Some("b"), &combine), Some("b".to_string()));
    assert_eq!(merge_condition(None, None, &combine), None);
}

#[test]
fn a_version_is_resolved_under_its_condition() {
    let site = api_mod(None, &["1.0.0", "1.0.5", "2.0.0"]);
    let pick =
        resolve_dep_version(&site, "m", Some("~1.0.0".to_string()), "1.20", true, &pick);
    assert_eq!(pick, Ok(("1.0.5".to_string(), "1.20/true/1.0.5".to_string())));
}

#[test]
fn failures_are_told_in_rows() {
    let failure = ResolveFailure::NotFound("m".to_string());
    assert_eq!(failure.mod_id(), "m");
    assert_eq!(
        failure.to_row(),
        "m\nNot found on the mod site. It may have been renamed, removed, or made private."
    );
    let failure = ResolveFailure::NoMatchingVersion("n".to_string(), "too old".to_string());
    assert_eq!(failure.mod_id(), "n");
    assert_eq!(failure.to_row(), "n\ntoo old");
}

#[test]
fn nothing_is_installed_by_default() {
    for installed in [Installed::new(), Installed::default()] {
        assert_eq!(installed.mod_id, "");
        assert_eq!(installed.mod_name, "");
        assert_eq!(installed.installed_file_path, None);
        assert_eq!(installed.old_file_path, None);
        assert_eq!(installed.install_version, "");
        assert!(!installed.success);
    }
}

#[test]
fn requests_for_one_mod_are_merged() {
    let merged = merge_requests(
        vec![
            request("Alpha", Some("=1"), None),
            request("beta", None, None),
            request("ALPHA", None, Some("~1")),
            request("alpha", Some("<2"), Some("~2")),
        ],
        &combine,
    );
    assert_eq!(merged.len(), 2);
    assert_eq!(merged[0].mod_id, "Alpha");
    assert_eq!(merged[0].version_req, Some("=1, <2".to_string()));
    assert_eq!(merged[0].fallback_req, Some("~1".to_string()));
    assert_eq!(merged[1].mod_id, "beta");
    assert_eq!(merged[1].version_req, None);
}

#[test]
fn the_base_game_is_never_asked_for() {
    let requests =
        vec![request("game", None, None), request("a", None, None), request("survival", None, None)];
    let left = prepare_requests(requests, &|id: &str| id == "game" || id == "survival", &combine);
    assert_eq!(left.len(), 1);
    assert_eq!(left[0].mod_id, "a");
}

#[test]
fn requested_ids_are_looked_up() {
    let requests = vec![request("B", None, None), request("a", None, None)];
    assert_eq!(mods_to_look_up(&requests).unwrap(), ["B", "a"]);
    assert!(mods_to_look_up(&Vec::new()).is_none());
}

#[test]
fn a_fallback_is_tried_second() {
    let site = api_mod(None, &["1.0.0", "1.0.7"]);
    let resolve = |version: Option<&str>, fallback: Option<&str>, pin: Option<&str>| {
        let pin = pin.map(|p| p.to_string());
        resolve_request(
            request("M", version, fallback),
            Some(&site),
            &pin,
            "1.20",
            false,
            &combine,
            &pick,
        )
    };
    let install = resolve(Some("=1.0.0"), None, None).unwrap();
    assert_eq!(install.mod_id, "m");
    assert_eq!(install.mod_name, "Shown");
    assert_eq!(install.version_to_install, "1.0.0");
    assert_eq!(install.download_url, "1.20/false/1.0.0");
    let install = resolve(Some("=1.0.3"), Some("~1.0.3"), None).unwrap();
    assert_eq!(install.version_to_install, "1.0.7");
    // the pin has to hold for the fallback as well
    let failure = resolve(Some("=1.0.3"), Some("~1.0.3"), Some("=1.0.0")).err().unwrap();
    assert_eq!(failure.to_row(), "M\nM has nothing for Some(\"=1.0.3, =1.0.0\")");
    let failure = resolve(Some("=3.0.0"), None, None).err().unwrap();
    assert_eq!(failure.to_row(), "M\nM has nothing for Some(\"=3.0.0\")");
}

#[test]
fn one_bad_mod_never_stops_the_others() {
    let found = site(&[("a", &["1.0.0"]), ("b", &["1.0.0", "2.0.0"])]);
    let requests = || {
        vec![
            request("a", Some("=9.0.0"), None),
            request("b", None, None),
            request("gone", None, None),
        ]
    };
    let packages = vec![pin("B", "=1.0.0")];
    let mut options = ResolveOptions {
        pinned_game_version: "1.20".to_string(),
        allow_unstable: true,
        apply_config_pins: true,
    };
    let (installs, failures) =
        resolve_requests(requests(), &found, &packages, &options, &combine, &pick);
    assert_eq!(installs.len() + failures.len(), 3);
    assert_eq!(installs[0].mod_id, "b");
    assert_eq!(installs[0].version_to_install, "1.0.0");
    let ids: Vec<&str> = failures.iter().map(|f| f.mod_id()).collect();
    assert_eq!(ids, ["a", "gone"]);
    options.apply_config_pins = false;
    let (installs, _) = resolve_requests(requests(), &found, &packages, &options, &combine, &pick);
    assert_eq!(installs[0].version_to_install, "2.0.0");
}

#[test]
fn every_requester_gets_a_say() {
    let requesters = vec![requester("a", "1.0.1"), requester("b", "*"), requester("c", "=1.0.4")];
    assert_eq!(
        combined_requirement(&requesters, &has_operator, &numbers, &combine),
        Some("~1.0.1, =1.0.4".to_string())
    );
    assert_eq!(combined_requirement(&Vec::new(), &has_operator, &numbers, &combine), None);
}

#[test]
fn the_last_of_the_highest_requesters_wins() {
    let requesters = vec![
        requester("a", "1.0.1"),
        requester("b", "2.0.0"),
        requester("c", "soon"),
        requester("d", "2.0.0"),
        requester("e", "1.9.9"),
    ];
    assert_eq!(highest_requester(&requesters, &numbers), Some(3));
    assert_eq!(highest_requester(&vec![requester("c", "soon")], &numbers), None);
}

#[test]
fn a_dependency_is_resolved() {
    let found = api_mod(Some("dep"), &["1.0.0", "1.0.5", "2.0.0"]);
    let resolve = |requesters: &[(&str, &str)], packages: Vec<Package>| {
        let requesters: Vec<Requester> =
            requesters.iter().map(|(id, version)| requester(id, version)).collect();
        let (release, notice) =
            resolve_dependency("dep", &requesters, &found, &packages, "1.20", true, &rules());
        (release.map(|r| r.0), notice.map(|n| (n.text, n.color)))
    };
    // one version keeps everyone happy
    let (release, notice) = resolve(&[("a", "1.0.0"), ("b", "1.0.2")], vec![]);
    assert_eq!((release, notice), (Some("1.0.5".to_string()), None));
    // the pin has to hold on top of it
    let (release, _) = resolve(&[("a", "1.0.0")], vec![pin("DEP", "=1.0.0")]);
    assert_eq!(release, Some("1.0.0".to_string()));
    // nothing satisfies everyone
    let (release, notice) = resolve(&[("a", "1.0.0"), ("b", "2.0.0")], vec![]);
    assert_eq!(release, Some("2.0.0".to_string()));
    assert_eq!(
        notice.unwrap(),
        (
            "dep is requested by multiple mods: (a wants 1.0.0, b wants 2.0.0). Installing \
             highest version needed: 2.0.0."
                .to_string(),
            Color::Yellow
        )
    );
    // not even the highest can be had
    let (release, notice) = resolve(&[("a", "1.0.0"), ("b", "3.0.0")], vec![]);
    assert_eq!(release, None);
    assert_eq!(
        notice.unwrap(),
        (
            "Unable to locate compatible versions for dep - dep has nothing for \
             Some(\"~3.0.0\")"
                .to_string(),
            Color::Red
        )
    );
    // a single requester has no one to fall back to
    let (release, notice) = resolve(&[("a", "3.0.0")], vec![]);
    assert_eq!(release, None);
    assert_eq!(notice.unwrap().1, Color::Red);
}

#[test]
fn a_mod_without_alias_goes_by_its_number() {
    assert_eq!(api_mod(None, &[]).known_id(), "17");
    assert_eq!(api_mod(Some("x"), &[]).known_id(), "x");
}

fn install(mod_id: &str, version: &str) -> Install {
    Install {
        mod_id: mod_id.to_string(),
        mod_name: format!("{mod_id} mod"),
        version_to_install: version.to_string(),
        download_url: format!("url/{mod_id}"),
        current_file_path: None,
    }
}

fn split(text: &str) -> (String, Option<String>) {
    match text.split_once('@') {
        Some((id, version)) => (id.to_string(), Some(version.to_string())),
        None => (text.to_string(), None),
    }
}

fn sync_info(version: &str) -> ModSyncInfo {
    ModSyncInfo {
        mod_name: "installed mod".to_string(),
        installed_version: version.to_string(),
        latest_known_version: String::new(),
        latest_download_url: String::new(),
        file_name: String::new(),
        is_symlink: false,
    }
}

fn deps(entries: &[(&str, &str)]) -> ModMap<String> {
    let mut map = ModMap::new();
    for (id, version) in entries {
        map.insert(id.to_string(), version.to_string());
    }
    map
}

#[test]
fn a_walk_starts_at_what_was_asked_for() {
    let mut walk = DependencyWalk::start(
        vec![install("Alpha", "1.0.0"), install("alpha", "2.0.0"), install("beta", "1.0.0")],
        false,
    );
    let queued: Vec<&str> = walk.queue.iter().map(|i| i.mod_id.as_str()).collect();
    assert_eq!(queued, ["Alpha", "beta"]);
    assert_eq!(walk.graph.names(), ["alpha", "beta"]);
    let dep = walk.graph.get("alpha").unwrap();
    assert_eq!(dep.version_to_install, "1.0.0");
    assert_eq!(dep.requesters[0].mod_id, "user");
    assert_eq!(dep.requesters[0].required_version, "1.0.0");

    let mut installed = ModMap::new();
    installed.insert("ALPHA@0.5.0".to_string(), sync_info("0.5.0"));
    installed.insert("Gamma".to_string(), sync_info("3.0.0"));
    walk.skip_installed(&installed, &split);
    // what was asked for keeps its place
    assert_eq!(walk.graph.get("alpha").unwrap().version_to_install, "1.0.0");
    let dep = walk.graph.get("gamma").unwrap();
    assert_eq!(dep.mod_id, "Gamma");
    assert_eq!(dep.version_to_install, "3.0.0");
    assert_eq!(dep.download_url, "");
    assert_eq!(dep.requesters[0].mod_id, "installed");
    assert_eq!(walk.queue.len(), 2);
}

#[test]
fn a_walk_ends_once_the_queue_is_empty() {
    let mut walk = DependencyWalk::start(vec![install("a", "1.0.0")], true);
    assert_eq!(walk.next_batch().unwrap().len(), 1);
    assert!(!walk.record(vec![Installed::new()]));
    assert_eq!(walk.installed.len(), 1);
    assert!(walk.next_batch().is_none());
    assert!(DependencyWalk::start(Vec::new(), false).record(Vec::new()));
}

#[test]
fn dependencies_leave_the_base_game_out() {
    let base = |id: &str| id == "game";
    let (id, left) =
        downloadable_dependencies("m", &deps(&[("a", "1"), ("game", "1.20")]), &base).unwrap();
    assert_eq!(id, "m");
    assert_eq!(left.names(), ["a"]);
    assert_eq!(left.get("a").unwrap(), "1");
    assert!(downloadable_dependencies("m", &deps(&[("game", "1.20")]), &base).is_none());
    assert!(downloadable_dependencies("m", &deps(&[]), &base).is_none());
}

#[test]
fn requirements_are_grouped_by_dependency() {
    let walk = DependencyWalk::start(vec![install("seen", "1.0.0")], false);
    let new = walk.new_dependencies(&vec![
        ("m".to_string(), deps(&[("Lib", "1.0.0"), ("SEEN", "9.0.0")])),
        ("n".to_string(), deps(&[("lib", "1.0.2"), ("other", "*")])),
    ]);
    assert_eq!(new.names(), ["lib", "other"]);
    let asked: Vec<(&str, &str)> = new
        .get("lib")
        .unwrap()
        .iter()
        .map(|r| (r.mod_id.as_str(), r.required_version.as_str()))
        .collect();
    assert_eq!(asked, [("m", "1.0.0"), ("n", "1.0.2")]);
}

#[test]
fn new_dependencies_are_taken_in_once() {
    let mut walk = DependencyWalk::start(vec![install("m", "1.0.0")], false);
    walk.next_batch();
    let new = walk.new_dependencies(&vec![
        ("m".to_string(), deps(&[("lib", "1.0.0"), ("gone", "1.0.0"), ("hard", "9.0.0")])),
        ("n".to_string(), deps(&[("gone", "2.0.0")])),
    ]);
    let found = site(&[("lib", &["1.0.0", "1.0.1"]), ("hard", &["1.0.0"])]);
    let packages = Vec::new();
    let setting =
        Setting { packages: &packages, pinned_game_version: "1.20", allow_unstable: false };
    let notices = walk.absorb(&new, &found, &setting, &rules());
    assert_eq!(walk.queue.len(), 1);
    assert_eq!(walk.queue[0].mod_id, "lib");
    assert_eq!(walk.queue[0].mod_name, "Shown");
    assert_eq!(walk.queue[0].version_to_install, "1.0.1");
    assert_eq!(walk.queue[0].download_url, "1.20/false/1.0.1");
    assert_eq!(walk.graph.names(), ["lib", "m"]);
    assert_eq!(walk.graph.get("lib").unwrap().requesters[0].mod_id, "m");
    // nothing drops out without a word
    assert_eq!(walk.unresolved, ["gone\nNot found on the mod site. Needed by: m, n"]);
    assert_eq!(notices.len(), 1);
    assert!(notices[0].text.starts_with("Unable to locate compatible versions for hard - "));
    // what the walk has seen is not queued again
    assert!(walk.absorb(&new, &site(&[("lib", &["1.0.0"])]), &setting, &rules()).is_empty());
    assert_eq!(walk.queue.len(), 1);
}

#[test]
fn no_mod_is_in_two_batches() {
    let mut walk = DependencyWalk::start(vec![install("m", "1.0.0")], false);
    let mut installed = ModMap::new();
    installed.insert("here".to_string(), sync_info("1.0.0"));
    walk.skip_installed(&installed, &split);
    let found = site(&[("a", &["1.0.0"]), ("b", &["1.0.0"]), ("m", &["2.0.0"])]);
    let packages = Vec::new();
    let setting = Setting { packages: &packages, pinned_game_version: "", allow_unstable: true };
    // m depends on a and on what is installed, a on b and back on m, b on a
    let declared = |id: &str| match id {
        "m" => deps(&[("A", "1.0.0"), ("here", "1.0.0")]),
        "a" => deps(&[("b", "1.0.0"), ("M", "2.0.0")]),
        _ => deps(&[("a", "1.0.0")]),
    };
    let mut batches: Vec<Vec<String>> = Vec::new();
    while let Some(batch) = walk.next_batch() {
        let ids: Vec<String> = batch.into_iter().map(|i| i.mod_id).collect();
        let downloaded = ids.iter().map(|id| (id.clone(), declared(id))).collect();
        batches.push(ids);
        let new = walk.new_dependencies(&downloaded);
        assert!(walk.absorb(&new, &found, &setting, &rules()).is_empty());
    }
    assert_eq!(batches, [["m"], ["a"], ["b"]]);
}

#[test]
fn processed_mods_are_shown_by_name() {
    let named = |mod_id: &str, name: &str| Installed {
        mod_id: mod_id.to_string(),
        mod_name: name.to_string(),
        ..Installed::new()
    };
    let sorted = sort_by_name(vec![
        named("1", "beta"),
        named("2", "Alpha"),
        named("3", "BETA"),
        named("4", "alpha"),
        named("5", "Éclair"),
        named("6", "zeta"),
    ]);
    let ids: Vec<&str> = sorted.iter().map(|i| i.mod_id.as_str()).collect();
    assert_eq!(ids, ["2", "4", "1", "3", "6", "5"]);
}
