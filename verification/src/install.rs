//! The install command: which of the requested mods are installed, and at which version.

use crate::aliases::ModID;
use crate::answers::{pick_view, pickable, picks, Pick, PickModel};
use crate::errors::{ErrorModel, RustiqueError};
use crate::install_manager::{
    as_text, resolve_dep_version, ApiMod, ApiModModel, Install, InstallModel,
};
use crate::keyed::{
    filtered, in_order, increasing, lemma_filtered, lemma_filtered_increasing,
    lemma_finite_in_order, lemma_in_order, lists_in_order, ModMap,
};
use crate::messages::{bracketed, Color, Notice, NoticeModel};
use crate::package::{find_pin, pin_exact, Package, PackageModel};
use crate::questions::{
    answered, called, law_exact_pin_is_that_of_the_first_package, law_picks_answers,
    pinned_exactly,
};
use crate::resolve_installs::{fresh_install, lookup};
use crate::sync::{ModSyncInfo, SyncModel};
use crate::text::{
    has_suffix, join, joined, lowercase, same_text, to_lowercase, trim, trimmed,
};
use vstd::prelude::*;

verus! {

/// A version that was typed and a pin, both of which have to hold. `*` means any version and
/// cannot stand beside another condition, so there the other one stands on its own.
pub open spec fn pins_together(cli_version: Seq<char>, config_pin: Seq<char>) -> Seq<char> {
    if trimmed(cli_version) == "*"@ {
        config_pin
    } else if trimmed(config_pin) == "*"@ {
        cli_version
    } else {
        cli_version + ", "@ + config_pin
    }
}

/// ANDs a version typed on the command line together with the mod's config pin so both have to
/// hold.
pub fn combine_pins(cli_version: &str, config_pin: &str) -> (r: String)
    ensures
        r@ == pins_together(cli_version@, config_pin@),
{
    if same_text(trim(cli_version), "*") {
        config_pin.to_owned()
    } else if same_text(trim(config_pin), "*") {
        cli_version.to_owned()
    } else {
        let mut r = cli_version.to_owned();
        r.append(", ");
        r.append(config_pin);
        r
    }
}

/// Whether a request is for a mod that is there already, with no version typed behind it: whoever
/// types a version knows what they want.
pub open spec fn needless(
    requested: Map<Seq<char>, Option<Seq<char>>>,
    installed: Map<Seq<char>, SyncModel>,
    mod_id: Seq<char>,
) -> bool {
    requested.contains_key(mod_id) && requested[mod_id] is None && installed.contains_key(mod_id)
}

/// The requests that are left, and the mods that are not installed again: all requests where the
/// user forces them, else those that are not needless.
pub fn skip_installed(
    requested: ModMap<Option<String>>,
    installed_mods: &ModMap<ModSyncInfo>,
    force: bool,
) -> (r: (ModMap<Option<String>>, Vec<String>))
    ensures
        r.0@ == (if force {
            requested@
        } else {
            requested@.remove_keys(
                requested@.dom().filter(
                    |k: Seq<char>| needless(requested@, installed_mods@, k),
                ),
            )
        }),
        r.1.deep_view() == (if force {
            Seq::empty()
        } else {
            filtered(
                in_order(requested@.dom()),
                |k: Seq<char>| needless(requested@, installed_mods@, k),
            )
        }),
        force ==> r.0@ == requested@ && r.1.len() == 0,
        r.0@.submap_of(requested@),
        !force ==> forall|id: Seq<char>| #[trigger]
            requested@.contains_key(id) ==> (r.0@.contains_key(id) <==> requested@[id] is Some
                || !installed_mods@.contains_key(id)),
        !force ==> forall|id: Seq<char>| #[trigger]
            r.1.deep_view().contains(id) <==> requested@.contains_key(id) && requested@[id] is None
                && installed_mods@.contains_key(id),
        increasing(r.1.deep_view()),
{
    let mut already: Vec<String> = Vec::new();
    if force {
        assert(already.deep_view() =~= Seq::empty());
        return (requested, already);
    }
    let ghost all = requested@;
    let ghost names = in_order(all.dom());
    let ghost test = |k: Seq<char>| needless(all, installed_mods@, k);
    let n = requested.len();
    let mut kept: ModMap<Option<String>> = ModMap::new();
    proof {
        lemma_in_order(names, all.dom());
        assert(names.take(0) =~= Seq::empty());
        assert(already.deep_view() =~= Seq::empty());
    }
    let mut i: usize = 0;
    while i < n
        invariant
            i <= n,
            n == names.len(),
            n == all.dom().len(),
            all == requested@,
            names == in_order(all.dom()),
            names.no_duplicates(),
            test == (|k: Seq<char>| needless(all, installed_mods@, k)),
            forall|j: int| 0 <= j < n ==> all.contains_key(#[trigger] names[j]),
            forall|k: Seq<char>| #[trigger]
                kept@.contains_key(k) <==> names.take(i as int).contains(k) && !test(k),
            forall|k: Seq<char>| #[trigger] kept@.contains_key(k) ==> kept@[k] == all[k],
            already.deep_view() == filtered(names.take(i as int), test),
        decreases n - i,
    {
        let name = requested.name_at(i);
        let version = requested.value_at(i);
        let ghost old_kept = kept@;
        let ghost old_already = already.deep_view();
        proof {
            assert(names.take(i + 1).drop_last() =~= names.take(i as int));
            assert(names.take(i + 1) =~= names.take(i as int).push(name@));
        }
        if version.is_none() && installed_mods.contains_key(name.as_str()) {
            already.push(name.clone());
            assert(already.deep_view() =~= old_already.push(name@));
        } else {
            kept.insert(name.clone(), version.clone());
        }
        proof {
            assert forall|k: Seq<char>|
                names.take(i + 1).contains(k) <==> names.take(i as int).contains(k) || k
                    == name@ by {
                if names.take(i as int).contains(k) {
                    let j = choose|j: int| 0 <= j < i && names.take(i as int)[j] == k;
                    assert(names.take(i + 1)[j] == k);
                }
                assert(names.take(i + 1)[i as int] == name@);
            }
            assert(!names.take(i as int).contains(name@)) by {
                if names.take(i as int).contains(name@) {
                    let j = choose|j: int| 0 <= j < i && names.take(i as int)[j] == name@;
                    assert(names[j] == names[i as int]);
                }
            }
        }
        i = i + 1;
    }
    proof {
        assert(names.take(n as int) =~= names);
        assert forall|k: Seq<char>| names.contains(k) <==> all.contains_key(k) by {
            assert(names.to_set().contains(k) <==> all.dom().contains(k));
        }
        assert(kept@ =~= all.remove_keys(all.dom().filter(test)));
        law_passed_over_iff_installed(all, installed_mods@);
    }
    (kept, already)
}

/// A request is passed over exactly where no version was typed behind it and the mod is installed,
/// whatever version of it that is. All other requests are kept as they are, and the ids that are
/// passed over are listed in their order, each once.
pub proof fn law_passed_over_iff_installed(
    requested: Map<Seq<char>, Option<Seq<char>>>,
    installed: Map<Seq<char>, SyncModel>,
)
    requires
        requested.dom().finite(),
    ensures
        ({
            let kept = requested.remove_keys(
                requested.dom().filter(|k: Seq<char>| needless(requested, installed, k)),
            );
            let already = filtered(
                in_order(requested.dom()),
                |k: Seq<char>| needless(requested, installed, k),
            );
            &&& kept.submap_of(requested)
            &&& forall|id: Seq<char>| #[trigger]
                requested.contains_key(id) ==> (kept.contains_key(id) <==> requested[id] is Some
                    || !installed.contains_key(id))
            &&& forall|id: Seq<char>| #[trigger]
                already.contains(id) <==> requested.contains_key(id) && requested[id] is None
                    && installed.contains_key(id)
            &&& increasing(already)
        }),
{
    let names = in_order(requested.dom());
    let test = |k: Seq<char>| needless(requested, installed, k);
    let kept = requested.remove_keys(requested.dom().filter(test));
    let already = filtered(names, test);
    lemma_finite_in_order(requested.dom());
    lemma_filtered_increasing(names, test);
    assert forall|id: Seq<char>| #[trigger]
        requested.contains_key(id) implies (kept.contains_key(id) <==> requested[id] is Some
        || !installed.contains_key(id)) by {
        assert(requested.dom().filter(test).contains(id) <==> test(id));
    }
    assert forall|id: Seq<char>| #[trigger]
        already.contains(id) <==> requested.contains_key(id) && requested[id] is None
            && installed.contains_key(id) by {
        lemma_filtered(names, test, id);
        assert(names.to_set().contains(id) <==> requested.dom().contains(id));
    }
}

/// What is said of the mods that are not installed again.
pub open spec fn already_installed_text(mods: Seq<Seq<char>>) -> Seq<char> {
    "Already installed, use -f to reinstall: ["@ + bracketed(mods) + "]"@
}

/// What there is to say of the mods that are not installed again, if there are any.
pub fn already_installed_notice(mods: &Vec<String>) -> (r: Option<Notice>)
    ensures
        r.deep_view() == (if mods.len() == 0 {
            None
        } else {
            Some(
                NoticeModel {
                    text: already_installed_text(mods.deep_view()),
                    color: Color::Yellow,
                },
            )
        }),
        r is Some <==> mods.len() > 0,
        r matches Some(notice) ==> notice.text@ == "Already installed, use -f to reinstall: ["@
            + joined(mods.deep_view(), "], ["@) + "]"@ && notice.color == Color::Yellow,
{
    if mods.len() == 0 {
        return None;
    }
    let mut text = "Already installed, use -f to reinstall: [".to_owned();
    text.append(join(mods, "], [").as_str());
    text.append("]");
    Some(Notice { text, color: Color::Yellow })
}

/// The error where the mod site has none of the mods that were asked for, `listed` being what the
/// user typed.
pub fn invalid_mod_id(listed: &str) -> (r: RustiqueError)
    ensures
        r.deep_view() == ErrorModel::SimpleError("Invalid modid "@ + listed@),
{
    let mut text = "Invalid modid ".to_owned();
    text.append(listed);
    RustiqueError::SimpleError(text)
}

/// The typed ids as they are shown in an error.
pub uninterp spec fn shown_list(ids: Seq<Seq<char>>) -> Seq<char>;

/// Formats a `Vec<String>` by its `std::fmt::Debug`, whose text is a function of the strings.
#[verifier::external_body]
fn show_list(ids: &Vec<String>) -> (r: String)
    ensures
        r@ == shown_list(ids.deep_view()),
{
    format!("{ids:?}")
}

/// Goes on after the requested mods were looked up, unless the mod site has none of them. `typed`
/// is what the user typed.
pub fn after_lookup(found_is_empty: bool, typed: &Vec<ModID>) -> (r: Result<(), RustiqueError>)
    ensures
        r is Err <==> found_is_empty,
        r matches Err(e) ==> e.deep_view() == ErrorModel::SimpleError(
            "Invalid modid "@ + shown_list(typed.deep_view()),
        ),
{
    if found_is_empty {
        Err(invalid_mod_id(show_list(typed).as_str()))
    } else {
        Ok(())
    }
}

/// The condition on the version of a mod. A version typed on the command line doesn't get to walk
/// over a config pin: both have to hold, unless the user forces the typed one.
pub open spec fn chosen_pin(
    cli_version: Option<Seq<char>>,
    config_pin: Option<Seq<char>>,
    force: bool,
) -> Option<Seq<char>> {
    match (cli_version, config_pin) {
        (Some(cli), Some(pin)) => if force {
            Some(cli)
        } else {
            Some(pins_together(cli, pin))
        },
        (Some(cli), None) => Some(cli),
        (None, pin) => pin,
    }
}

/// Finds the condition on the version of a mod.
pub fn choose_pin(cli_version: Option<&str>, config_pin: Option<&str>, force: bool) -> (r: Option<
    String,
>)
    ensures
        r.deep_view() == chosen_pin(cli_version.deep_view(), config_pin.deep_view(), force),
{
    match (cli_version, config_pin) {
        (Some(cli), Some(pin)) => if force {
            Some(cli.to_owned())
        } else {
            Some(combine_pins(cli, pin))
        },
        (Some(cli), None) => Some(cli.to_owned()),
        (None, Some(pin)) => Some(pin.to_owned()),
        (None, None) => None,
    }
}

/// Why a mod is not installed. Where a version was typed and the mod is pinned, the pin is almost
/// always the real reason, so that is said in place of what the rules said.
pub open spec fn refusal(
    mod_id: Seq<char>,
    cli_version: Option<Seq<char>>,
    config_pin: Option<Seq<char>>,
    force: bool,
    reason: Seq<char>,
) -> Seq<char> {
    if cli_version is Some && config_pin is Some && !force {
        "pinned to "@ + config_pin->0 + " in your config, which "@ + cli_version->0
            + " can't satisfy.\nRepin with [rustique config set -P <version> -w "@ + mod_id
            + "], clear it with [rustique config del -P "@ + mod_id
            + "], or use -f to override it just this once."@
    } else {
        reason
    }
}

fn refuse(
    mod_id: &str,
    cli_version: Option<&str>,
    config_pin: Option<&str>,
    force: bool,
    reason: &str,
) -> (r: String)
    ensures
        r@ == refusal(mod_id@, cli_version.deep_view(), config_pin.deep_view(), force, reason@),
{
    match (cli_version, config_pin) {
        (Some(cli), Some(pin)) if !force => {
            let mut text = "pinned to ".to_owned();
            text.append(pin);
            text.append(" in your config, which ");
            text.append(cli);
            text.append(" can't satisfy.\nRepin with [rustique config set -P <version> -w ");
            text.append(mod_id);
            text.append("], clear it with [rustique config del -P ");
            text.append(mod_id);
            text.append("], or use -f to override it just this once.");
            text
        },
        _ => reason.to_owned(),
    }
}

/// The row for a mod that is not installed: its number and name, and why.
pub open spec fn refused_row<R>(api_mod: ApiModModel<R>, reason: Seq<char>) -> Seq<char> {
    trimmed(api_mod.mod_id + "\t- "@ + api_mod.display_name()) + "\n"@ + reason
}

/// What becomes of a mod that the site has: it is installed, or a row says why not.
pub type ChoiceModel = Result<InstallModel, Seq<char>>;

/// What a map has under a key that may be absent itself.
pub open spec fn lookup_flat(map: Map<Seq<char>, Option<Seq<char>>>, key: Seq<char>) -> Option<
    Seq<char>,
> {
    if map.contains_key(key) {
        map[key]
    } else {
        None
    }
}

/// What becomes of a mod, given the release that was picked for it.
pub open spec fn outcome_of<R>(
    mod_id: Seq<char>,
    api_mod: ApiModModel<R>,
    cli_version: Option<Seq<char>>,
    config_pin: Option<Seq<char>>,
    force: bool,
    pick: PickModel,
) -> ChoiceModel {
    match pick {
        Ok((version, url)) => Ok(fresh_install(mod_id, api_mod, version, url)),
        Err(reason) => Err(
            refused_row(api_mod, refusal(mod_id, cli_version, config_pin, force, reason)),
        ),
    }
}

/// Whether a mod that the site has under `found_id` may come to `choice`.
pub open spec fn chooses<R, P: Fn(&R, &Package, &str, bool) -> Pick>(
    rule: P,
    found_id: Seq<char>,
    api_mod: ApiModModel<R>,
    requested: Map<Seq<char>, Option<Seq<char>>>,
    packages: Seq<PackageModel>,
    force: bool,
    game: Seq<char>,
    unstable: bool,
    choice: ChoiceModel,
) -> bool {
    let mod_id = lowercase(found_id);
    let cli_version = lookup_flat(requested, mod_id);
    let config_pin = pin_exact(packages, mod_id);
    exists|pick: PickModel| #[trigger]
        picks(
            rule,
            api_mod.releases,
            PackageModel {
                mod_id,
                pinned_version: chosen_pin(cli_version, config_pin, force),
            },
            game,
            unstable,
            pick,
        ) && choice == outcome_of(mod_id, api_mod, cli_version, config_pin, force, pick)
}

/// The characters of a choice.
pub open spec fn choice_view(choice: Result<Install, String>) -> ChoiceModel {
    match choice {
        Ok(install) => Ok(install.deep_view()),
        Err(row) => Err(row@),
    }
}

/// Decides what becomes of a mod, given the release that was picked for it.
pub fn settle_pick<R>(
    mod_id: String,
    api_mod: &ApiMod<R>,
    cli_version: Option<&str>,
    config_pin: Option<&str>,
    force: bool,
    pick: Pick,
) -> (r: Result<Install, String>)
    ensures
        choice_view(r) == outcome_of(
            mod_id@,
            api_mod.deep_view(),
            cli_version.deep_view(),
            config_pin.deep_view(),
            force,
            pick_view(pick),
        ),
{
    match pick {
        Ok((version_to_install, download_url)) => Ok(
            Install {
                mod_id,
                mod_name: api_mod.display_name(),
                version_to_install,
                download_url,
                current_file_path: None,
            },
        ),
        Err(reason) => {
            let mut title = api_mod.mod_id.clone();
            title.append("\t- ");
            title.append(api_mod.display_name().as_str());
            let mut row = trim(title.as_str()).to_owned();
            row.append("\n");
            row.append(
                refuse(mod_id.as_str(), cli_version, config_pin, force, reason.as_str()).as_str(),
            );
            Err(row)
        },
    }
}

fn choose_one<R, P: Fn(&R, &Package, &str, bool) -> Pick>(
    found_id: &str,
    api_mod: &ApiMod<R>,
    requested: &ModMap<Option<String>>,
    packages: &Vec<Package>,
    force: bool,
    game: &str,
    unstable: bool,
    parse_pinned_version: &P,
) -> (r: Result<Install, String>)
    requires
        pickable::<R, P>(*parse_pinned_version),
    ensures
        chooses(
            *parse_pinned_version,
            found_id@,
            api_mod.deep_view(),
            requested@,
            packages.deep_view(),
            force,
            game@,
            unstable,
            choice_view(r),
        ),
{
    let mod_id = to_lowercase(found_id);
    let cli_version = match requested.get(mod_id.as_str()) {
        Some(Some(version)) => Some(version.as_str()),
        _ => None,
    };
    assert(cli_version.deep_view() == lookup_flat(requested@, mod_id@));
    let pin = find_pin(packages, mod_id.as_str());
    let config_pin = as_text(&pin);
    let wanted = choose_pin(cli_version, config_pin, force);
    let pick = resolve_dep_version(
        api_mod,
        mod_id.as_str(),
        wanted,
        game,
        unstable,
        parse_pinned_version,
    );
    assert(picks(
        *parse_pinned_version,
        api_mod.deep_view().releases,
        PackageModel { mod_id: mod_id@, pinned_version: wanted.deep_view() },
        game@,
        unstable,
        pick_view(pick),
    ));
    settle_pick(mod_id, api_mod, cli_version, config_pin, force, pick)
}

/// The mods among the choices that are installed, in their order.
pub open spec fn chosen(choices: Seq<ChoiceModel>) -> Seq<InstallModel>
    decreases choices.len(),
{
    if choices.len() == 0 {
        Seq::empty()
    } else {
        match choices.last() {
            Ok(install) => chosen(choices.drop_last()).push(install),
            Err(_) => chosen(choices.drop_last()),
        }
    }
}

/// The rows of the mods among the choices that are not installed, in their order.
pub open spec fn refused(choices: Seq<ChoiceModel>) -> Seq<Seq<char>>
    decreases choices.len(),
{
    if choices.len() == 0 {
        Seq::empty()
    } else {
        match choices.last() {
            Ok(_) => refused(choices.drop_last()),
            Err(row) => refused(choices.drop_last()).push(row),
        }
    }
}

/// Whether `typed` is the version that was typed behind a mod id, if any.
pub open spec fn typed_behind(
    requested: Map<Seq<char>, Option<Seq<char>>>,
    mod_id: Seq<char>,
    typed: Option<Seq<char>>,
) -> bool {
    &&& requested.contains_key(mod_id) ==> typed == requested[mod_id]
    &&& !requested.contains_key(mod_id) ==> typed is None
}

/// Whether `wanted` is what is asked for of a version that was typed and a pin, either of which may
/// be absent: the one that is there, the typed one where the user forces it, and both where both
/// are there and neither is `*`.
pub open spec fn heeds_both(
    typed: Option<Seq<char>>,
    pin: Option<Seq<char>>,
    force: bool,
    wanted: Option<Seq<char>>,
) -> bool {
    &&& typed is None ==> wanted == pin
    &&& pin is None ==> wanted == typed
    &&& typed is Some && force ==> wanted == typed
    &&& typed is Some && pin is Some && !force ==> {
        &&& trimmed(typed->0) == "*"@ ==> wanted == pin
        &&& trimmed(typed->0) != "*"@ && trimmed(pin->0) == "*"@ ==> wanted == typed
        &&& trimmed(typed->0) != "*"@ && trimmed(pin->0) != "*"@ ==> wanted == Some(
            typed->0 + ", "@ + pin->0,
        )
    }
}

/// Whether a call of the rule may answer `answer` when it is asked about a mod that the site has
/// under `found_id`, by that id in lowercase, for just this game version and for what heeds both the
/// version typed behind that id and the pin of the package with that id.
pub open spec fn answered_about<R, P: Fn(&R, &Package, &str, bool) -> Pick>(
    rule: P,
    found: Map<Seq<char>, ApiModModel<R>>,
    found_id: Seq<char>,
    typed: Option<Seq<char>>,
    pin: Option<Seq<char>>,
    force: bool,
    game: Seq<char>,
    unstable: bool,
    answer: Pick,
) -> bool {
    exists|wanted: Option<Seq<char>>|
        heeds_both(typed, pin, force, wanted) && #[trigger] answered(
            rule,
            found[found_id].releases,
            lowercase(found_id),
            wanted,
            game,
            unstable,
            answer,
        )
}

/// Whether an install is of a mod that the site has, with the name that the site gives it and the
/// version and the url of an answer of the rule about it.
pub open spec fn is_chosen<R, P: Fn(&R, &Package, &str, bool) -> Pick>(
    rule: P,
    found: Map<Seq<char>, ApiModModel<R>>,
    requested: Map<Seq<char>, Option<Seq<char>>>,
    packages: Seq<PackageModel>,
    force: bool,
    game: Seq<char>,
    unstable: bool,
    install: InstallModel,
) -> bool {
    exists|
        found_id: Seq<char>,
        typed: Option<Seq<char>>,
        pin: Option<Seq<char>>,
        answer: Pick,
    |
        {
            &&& found.contains_key(found_id)
            &&& install.mod_id == lowercase(found_id)
            &&& called(found[found_id], install.mod_name)
            &&& install.current_file_path is None
            &&& typed_behind(requested, lowercase(found_id), typed)
            &&& pinned_exactly(packages, lowercase(found_id), pin)
            &&& #[trigger] answered_about(
                rule,
                found,
                found_id,
                typed,
                pin,
                force,
                game,
                unstable,
                answer,
            )
            &&& answer is Ok
            &&& answer->Ok_0.0@ == install.version_to_install
            &&& answer->Ok_0.1@ == install.download_url
        }
}

/// Whether a row says of a mod that the site has why the rule refuses what is asked for: it names
/// the pin where a version was typed that the user does not force past it, else the rule's reason.
pub open spec fn is_refused<R, P: Fn(&R, &Package, &str, bool) -> Pick>(
    rule: P,
    found: Map<Seq<char>, ApiModModel<R>>,
    requested: Map<Seq<char>, Option<Seq<char>>>,
    packages: Seq<PackageModel>,
    force: bool,
    game: Seq<char>,
    unstable: bool,
    row: Seq<char>,
) -> bool {
    exists|
        found_id: Seq<char>,
        name: Seq<char>,
        typed: Option<Seq<char>>,
        pin: Option<Seq<char>>,
        answer: Pick,
    |
        {
            &&& found.contains_key(found_id)
            &&& #[trigger] called(found[found_id], name)
            &&& typed_behind(requested, lowercase(found_id), typed)
            &&& pinned_exactly(packages, lowercase(found_id), pin)
            &&& #[trigger] answered_about(
                rule,
                found,
                found_id,
                typed,
                pin,
                force,
                game,
                unstable,
                answer,
            )
            &&& answer is Err
            &&& typed is None || pin is None || force ==> row == trimmed(
                found[found_id].mod_id + "\t- "@ + name,
            ) + "\n"@ + answer->Err_0@
            &&& typed is Some && pin is Some && !force ==> row == trimmed(
                found[found_id].mod_id + "\t- "@ + name,
            ) + "\n"@ + ("pinned to "@ + pin->0 + " in your config, which "@ + typed->0
                + " can't satisfy.\nRepin with [rustique config set -P <version> -w "@ + lowercase(
                found_id,
            ) + "], clear it with [rustique config del -P "@ + lowercase(found_id)
                + "], or use -f to override it just this once."@)
        }
}

/// What becomes of a mod is decided by an answer of the rule about it.
pub proof fn law_choice_is_what_the_rule_picks<R, P: Fn(&R, &Package, &str, bool) -> Pick>(
    rule: P,
    found: Map<Seq<char>, ApiModModel<R>>,
    found_id: Seq<char>,
    requested: Map<Seq<char>, Option<Seq<char>>>,
    packages: Seq<PackageModel>,
    force: bool,
    game: Seq<char>,
    unstable: bool,
    choice: ChoiceModel,
)
    requires
        found.contains_key(found_id),
        chooses(
            rule,
            found_id,
            found[found_id],
            requested,
            packages,
            force,
            game,
            unstable,
            choice,
        ),
    ensures
        choice matches Ok(install) ==> is_chosen(
            rule,
            found,
            requested,
            packages,
            force,
            game,
            unstable,
            install,
        ),
        choice matches Ok(install) ==> install.mod_id == lowercase(found_id),
        choice matches Err(row) ==> is_refused(
            rule,
            found,
            requested,
            packages,
            force,
            game,
            unstable,
            row,
        ),
{
    let mod_id = lowercase(found_id);
    let api_mod = found[found_id];
    let typed = lookup_flat(requested, mod_id);
    let pin = pin_exact(packages, mod_id);
    let wanted = chosen_pin(typed, pin, force);
    law_exact_pin_is_that_of_the_first_package(packages, mod_id);
    let pick = choose|pick: PickModel| #[trigger]
        picks(
            rule,
            api_mod.releases,
            PackageModel { mod_id, pinned_version: wanted },
            game,
            unstable,
            pick,
        ) && choice == outcome_of(mod_id, api_mod, typed, pin, force, pick);
    law_picks_answers(rule, api_mod.releases, mod_id, wanted, game, unstable, pick);
    let answer = choose|answer: Pick|
        {
            &&& #[trigger] answered(
                rule,
                api_mod.releases,
                mod_id,
                wanted,
                game,
                unstable,
                answer,
            )
            &&& match pick {
                Ok((version, url)) => answer is Ok && answer->Ok_0.0@ == version
                    && answer->Ok_0.1@ == url,
                Err(reason) => answer is Err && answer->Err_0@ == reason,
            }
        };
    assert(heeds_both(typed, pin, force, wanted));
    assert(typed_behind(requested, mod_id, typed));
    assert(answered_about(rule, found, found_id, typed, pin, force, game, unstable, answer));
    assert(called(found[found_id], api_mod.display_name()));
}

/// The choices are sorted into installs and rows, each kind in their order, and none is lost.
pub proof fn law_choices_are_sorted_out(a: Seq<ChoiceModel>, b: Seq<ChoiceModel>)
    ensures
        chosen(a + b) == chosen(a) + chosen(b),
        refused(a + b) == refused(a) + refused(b),
        chosen(a).len() + refused(a).len() == a.len(),
        a.len() == 1 && a[0] is Ok ==> chosen(a) == seq![a[0]->Ok_0],
        a.len() == 1 && a[0] is Err ==> refused(a) == seq![a[0]->Err_0],
    decreases a.len() + b.len(),
{
    if a.len() > 0 {
        law_choices_are_sorted_out(a.drop_last(), Seq::empty());
        assert(a.len() == 1 ==> a.drop_last() =~= Seq::empty());
        assert(a.len() == 1 && a[0] is Ok ==> chosen(a) =~= seq![a[0]->Ok_0]);
        assert(a.len() == 1 && a[0] is Err ==> refused(a) =~= seq![a[0]->Err_0]);
    }
    if b.len() == 0 {
        assert(a + b =~= a);
        assert(chosen(a) + chosen(b) =~= chosen(a));
        assert(refused(a) + refused(b) =~= refused(a));
    } else {
        law_choices_are_sorted_out(a, b.drop_last());
        assert((a + b).drop_last() =~= a + b.drop_last());
        assert(chosen(a + b) =~= chosen(a) + chosen(b));
        assert(refused(a + b) =~= refused(a) + refused(b));
    }
}

proof fn lemma_chosen_is_a_choice(choices: Seq<ChoiceModel>, k: int) -> (i: int)
    requires
        0 <= k < chosen(choices).len(),
    ensures
        0 <= i < choices.len(),
        choices[i] == Ok::<InstallModel, Seq<char>>(chosen(choices)[k]),
    decreases choices.len(),
{
    let before = chosen(choices.drop_last());
    if k < before.len() {
        let i = lemma_chosen_is_a_choice(choices.drop_last(), k);
        assert(choices[i] == choices.drop_last()[i]);
        i
    } else {
        choices.len() - 1
    }
}

proof fn lemma_refused_is_a_choice(choices: Seq<ChoiceModel>, k: int) -> (i: int)
    requires
        0 <= k < refused(choices).len(),
    ensures
        0 <= i < choices.len(),
        choices[i] == Err::<InstallModel, Seq<char>>(refused(choices)[k]),
    decreases choices.len(),
{
    let before = refused(choices.drop_last());
    if k < before.len() {
        let i = lemma_refused_is_a_choice(choices.drop_last(), k);
        assert(choices[i] == choices.drop_last()[i]);
        i
    } else {
        choices.len() - 1
    }
}

/// Chooses what to install of the mods that the site has, in the order of their ids. Hands back
/// the installs, and a row for each mod without a compatible version.
pub fn choose_installs<R, P: Fn(&R, &Package, &str, bool) -> Pick>(
    found: &ModMap<ApiMod<R>>,
    requested: &ModMap<Option<String>>,
    packages: &Vec<Package>,
    force: bool,
    pinned_game_version: &str,
    allow_unstable: bool,
    parse_pinned_version: &P,
) -> (r: (Vec<Install>, Vec<String>))
    requires
        pickable::<R, P>(*parse_pinned_version),
    ensures
        exists|choices: Seq<ChoiceModel>|
            {
                &&& choices.len() == in_order(found@.dom()).len()
                &&& forall|i: int|
                    0 <= i < choices.len() ==> chooses(
                        *parse_pinned_version,
                        in_order(found@.dom())[i],
                        found@[in_order(found@.dom())[i]],
                        requested@,
                        packages.deep_view(),
                        force,
                        pinned_game_version@,
                        allow_unstable,
                        #[trigger] choices[i],
                    )
                &&& r.0.deep_view() == #[trigger] chosen(choices)
                &&& r.1.deep_view() == refused(choices)
            },
        r.0.len() + r.1.len() == found@.dom().len(),
        forall|k: int|
            0 <= k < r.0.len() ==> is_chosen(
                *parse_pinned_version,
                found@,
                requested@,
                packages.deep_view(),
                force,
                pinned_game_version@,
                allow_unstable,
                #[trigger] r.0.deep_view()[k],
            ),
        forall|k: int|
            0 <= k < r.1.len() ==> is_refused(
                *parse_pinned_version,
                found@,
                requested@,
                packages.deep_view(),
                force,
                pinned_game_version@,
                allow_unstable,
                #[trigger] r.1.deep_view()[k],
            ),
{
    let ghost ids = in_order(found@.dom());
    let ghost mut choices: Seq<ChoiceModel> = Seq::empty();
    let mut installs: Vec<Install> = Vec::new();
    let mut rows: Vec<String> = Vec::new();
    let n = found.len();
    let mut i: usize = 0;
    while i < n
        invariant
            i <= n,
            n == ids.len(),
            n == found@.dom().len(),
            ids == in_order(found@.dom()),
            pickable::<R, P>(*parse_pinned_version),
            choices.len() == i,
            forall|j: int|
                0 <= j < i ==> chooses(
                    *parse_pinned_version,
                    ids[j],
                    found@[ids[j]],
                    requested@,
                    packages.deep_view(),
                    force,
                    pinned_game_version@,
                    allow_unstable,
                    #[trigger] choices[j],
                ),
            installs.deep_view() == chosen(choices),
            rows.deep_view() == refused(choices),
            lists_in_order(ids, found@.dom()),
        decreases n - i,
    {
        let choice = choose_one(
            found.name_at(i).as_str(),
            found.value_at(i),
            requested,
            packages,
            force,
            pinned_game_version,
            allow_unstable,
            parse_pinned_version,
        );
        let ghost before = choices;
        let ghost old_installs = installs.deep_view();
        let ghost old_rows = rows.deep_view();
        proof {
            choices = before.push(choice_view(choice));
            assert(choices.drop_last() =~= before);
        }
        match choice {
            Ok(install) => {
                installs.push(install);
                assert(installs.deep_view() =~= old_installs.push(install.deep_view()));
            },
            Err(row) => {
                rows.push(row);
                assert(rows.deep_view() =~= old_rows.push(row@));
            },
        }
        i = i + 1;
    }
    proof {
        lemma_in_order(ids, found@.dom());
        law_choices_are_sorted_out(choices, Seq::empty());
        assert forall|k: int| 0 <= k < installs.len() implies is_chosen(
            *parse_pinned_version,
            found@,
            requested@,
            packages.deep_view(),
            force,
            pinned_game_version@,
            allow_unstable,
            #[trigger] installs.deep_view()[k],
        ) by {
            let i = lemma_chosen_is_a_choice(choices, k);
            assert(choices[i] == Ok::<InstallModel, Seq<char>>(installs.deep_view()[k]));
            law_choice_is_what_the_rule_picks(
                *parse_pinned_version,
                found@,
                ids[i],
                requested@,
                packages.deep_view(),
                force,
                pinned_game_version@,
                allow_unstable,
                choices[i],
            );
        }
        assert forall|k: int| 0 <= k < rows.len() implies is_refused(
            *parse_pinned_version,
            found@,
            requested@,
            packages.deep_view(),
            force,
            pinned_game_version@,
            allow_unstable,
            #[trigger] rows.deep_view()[k],
        ) by {
            let i = lemma_refused_is_a_choice(choices, k);
            assert(choices[i] == Err::<InstallModel, Seq<char>>(rows.deep_view()[k]));
            law_choice_is_what_the_rule_picks(
                *parse_pinned_version,
                found@,
                ids[i],
                requested@,
                packages.deep_view(),
                force,
                pinned_game_version@,
                allow_unstable,
                choices[i],
            );
        }
    }
    (installs, rows)
}

/// Whether `rule` can be asked for the latest of any releases.
pub open spec fn datable<R, L: Fn(&R, bool) -> (String, String)>(rule: L) -> bool {
    forall|releases: &R, unstable: bool| #[trigger] call_requires(rule, (releases, unstable))
}

/// Whether `rule` may answer that the latest release is `version`, to be had at `url`.
pub open spec fn latest_may_be<R, L: Fn(&R, bool) -> (String, String)>(
    rule: L,
    releases: R,
    unstable: bool,
    version: Seq<char>,
    url: Seq<char>,
) -> bool {
    exists|r: (String, String)|
        r.0@ == version && r.1@ == url && #[trigger] call_ensures(rule, (&releases, unstable), r)
}

/// Whether a missing dependency may become `r`: it takes its name and its latest release from the
/// mod site, and stays as it is where the site does not have it.
pub open spec fn completes<R, L: Fn(&R, bool) -> (String, String)>(
    rule: L,
    missing: InstallModel,
    found: Option<ApiModModel<R>>,
    unstable: bool,
    r: InstallModel,
) -> bool {
    match found {
        None => r == missing,
        Some(api_mod) => exists|version: Seq<char>, url: Seq<char>| #[trigger]
            latest_may_be(rule, api_mod.releases, unstable, version, url) && r == (InstallModel {
                mod_name: api_mod.display_name(),
                version_to_install: version,
                download_url: url,
                ..missing
            }),
    }
}

fn complete_one<R, L: Fn(&R, bool) -> (String, String)>(
    missing: Install,
    found: Option<&ApiMod<R>>,
    unstable: bool,
    parse_latest_version: &L,
) -> (r: Install)
    requires
        datable::<R, L>(*parse_latest_version),
    ensures
        completes(
            *parse_latest_version,
            missing.deep_view(),
            found.deep_view(),
            unstable,
            r.deep_view(),
        ),
{
    match found {
        None => missing,
        Some(api_mod) => {
            let latest = parse_latest_version(&api_mod.releases, unstable);
            assert(found.deep_view() == Some(api_mod.deep_view()));
            assert(call_ensures(*parse_latest_version, (&api_mod.releases, unstable), latest));
            assert(latest_may_be(
                *parse_latest_version,
                api_mod.deep_view().releases,
                unstable,
                latest.0@,
                latest.1@,
            ));
            Install {
                mod_id: missing.mod_id,
                mod_name: api_mod.display_name(),
                version_to_install: latest.0,
                download_url: latest.1,
                current_file_path: missing.current_file_path,
            }
        },
    }
}

/// Completes the missing dependencies by what the mod site has under their ids. There is nothing
/// to install where the site has none of them. `parse_latest_version` gives the latest of the
/// releases and where to get it.
pub fn complete_missing<R, L: Fn(&R, bool) -> (String, String)>(
    missing: Vec<Install>,
    found: &ModMap<ApiMod<R>>,
    allow_unstable: bool,
    parse_latest_version: &L,
) -> (r: Option<Vec<Install>>)
    requires
        datable::<R, L>(*parse_latest_version),
    ensures
        r is None <==> found@ == Map::<Seq<char>, ApiModModel<R>>::empty(),
        r matches Some(installs) ==> {
            &&& installs.len() == missing.len()
            &&& forall|i: int|
                0 <= i < installs.len() ==> completes(
                    *parse_latest_version,
                    missing.deep_view()[i],
                    lookup(found@, missing.deep_view()[i].mod_id),
                    allow_unstable,
                    #[trigger] installs.deep_view()[i],
                )
            &&& forall|i: int|
                0 <= i < installs.len() ==> {
                    let id = missing.deep_view()[i].mod_id;
                    &&& (#[trigger] installs.deep_view()[i]).mod_id == id
                    &&& installs.deep_view()[i].current_file_path
                        == missing.deep_view()[i].current_file_path
                    &&& !found@.contains_key(id) ==> installs.deep_view()[i]
                        == missing.deep_view()[i]
                    &&& found@.contains_key(id) ==> called(
                        found@[id],
                        installs.deep_view()[i].mod_name,
                    )
                    &&& found@.contains_key(id) ==> exists|version: String, url: String|
                        #[trigger] call_ensures(
                            *parse_latest_version,
                            (&found@[id].releases, allow_unstable),
                            (version, url),
                        ) && version@ == installs.deep_view()[i].version_to_install && url@
                            == installs.deep_view()[i].download_url
                }
        },
{
    if found.is_empty() {
        return None;
    }
    let ghost all = missing.deep_view();
    let mut r: Vec<Install> = Vec::new();
    for install in it: missing
        invariant
            datable::<R, L>(*parse_latest_version),
            it.seq() == missing@,
            all == missing.deep_view(),
            r.len() == it.index(),
            forall|i: int|
                0 <= i < r.len() ==> completes(
                    *parse_latest_version,
                    all[i],
                    lookup(found@, all[i].mod_id),
                    allow_unstable,
                    #[trigger] r.deep_view()[i],
                ),
    {
        let ghost n = it.index();
        let ghost before = r.deep_view();
        assert(all[n] == install.deep_view());
        let site = found.get(install.mod_id.as_str());
        assert(site.deep_view() == lookup(found@, all[n].mod_id));
        let done = complete_one(install, site, allow_unstable, parse_latest_version);
        r.push(done);
        assert(r.deep_view() =~= before.push(done.deep_view()));
    }
    proof {
        let installs = r.deep_view();
        assert forall|i: int| 0 <= i < installs.len() implies {
            let id = all[i].mod_id;
            &&& (#[trigger] installs[i]).mod_id == id
            &&& installs[i].current_file_path == all[i].current_file_path
            &&& !found@.contains_key(id) ==> installs[i] == all[i]
            &&& found@.contains_key(id) ==> called(found@[id], installs[i].mod_name)
            &&& found@.contains_key(id) ==> exists|version: String, url: String| #[trigger]
                call_ensures(
                    *parse_latest_version,
                    (&found@[id].releases, allow_unstable),
                    (version, url),
                ) && version@ == installs[i].version_to_install && url@ == installs[i].download_url
        } by {
            law_completed_by_the_latest(
                *parse_latest_version,
                all[i],
                found@,
                allow_unstable,
                installs[i],
            );
        }
    }
    Some(r)
}

/// A missing dependency keeps its id and its place. Where the site has it, it gets the name that the
/// site gives it and the version and the url of an answer of the rule about just its releases, asked
/// with just this permission of unstable versions. Where the site does not have it, it stays as it
/// is.
pub proof fn law_completed_by_the_latest<R, L: Fn(&R, bool) -> (String, String)>(
    rule: L,
    missing: InstallModel,
    found: Map<Seq<char>, ApiModModel<R>>,
    unstable: bool,
    r: InstallModel,
)
    requires
        completes(rule, missing, lookup(found, missing.mod_id), unstable, r),
    ensures
        r.mod_id == missing.mod_id,
        r.current_file_path == missing.current_file_path,
        !found.contains_key(missing.mod_id) ==> r == missing,
        found.contains_key(missing.mod_id) ==> called(found[missing.mod_id], r.mod_name),
        found.contains_key(missing.mod_id) ==> exists|version: String, url: String| #[trigger]
            call_ensures(rule, (&found[missing.mod_id].releases, unstable), (version, url))
                && version@ == r.version_to_install && url@ == r.download_url,
{
    if found.contains_key(missing.mod_id) {
        let api_mod = found[missing.mod_id];
        let (version, url) = choose|version: Seq<char>, url: Seq<char>| #[trigger]
            latest_may_be(rule, api_mod.releases, unstable, version, url) && r == (InstallModel {
                mod_name: api_mod.display_name(),
                version_to_install: version,
                download_url: url,
                ..missing
            });
        let latest = choose|latest: (String, String)|
            latest.0@ == version && latest.1@ == url && #[trigger] call_ensures(
                rule,
                (&api_mod.releases, unstable),
                latest,
            );
        assert(call_ensures(rule, (&api_mod.releases, unstable), (latest.0, latest.1)));
    }
}

/// A version typed on the command line never walks over a config pin: unless the user forces it,
/// the condition names the pin. A pin that any version meets is no condition, so the typed version
/// stands there.
pub proof fn law_pin_holds_unless_forced(cli_version: Option<Seq<char>>, config_pin: Seq<char>)
    ensures
        trimmed(config_pin) != "*"@ ==> ({
            let wanted = chosen_pin(cli_version, Some(config_pin), false);
            wanted is Some && has_suffix(wanted->0, config_pin)
        }),
        trimmed(config_pin) == "*"@ && cli_version is Some && trimmed(cli_version->0) != "*"@
            ==> chosen_pin(cli_version, Some(config_pin), false) == cli_version,
        cli_version is Some ==> chosen_pin(cli_version, Some(config_pin), true) == cli_version,
{
    if trimmed(config_pin) != "*"@ {
        let wanted = chosen_pin(cli_version, Some(config_pin), false)->0;
        assert(wanted.skip(wanted.len() - config_pin.len()) =~= config_pin);
    }
}

/// A typed version and a pin are put side by side only where neither of them is `*`, which cannot
/// stand beside another condition.
pub proof fn law_star_stands_alone(cli_version: Seq<char>, config_pin: Seq<char>)
    ensures
        trimmed(cli_version) == "*"@ ==> pins_together(cli_version, config_pin) == config_pin,
        trimmed(config_pin) == "*"@ ==> trimmed(pins_together(cli_version, config_pin)) == trimmed(
            cli_version,
        ),
        trimmed(cli_version) != "*"@ && trimmed(config_pin) != "*"@ ==> pins_together(
            cli_version,
            config_pin,
        ) == cli_version + ", "@ + config_pin,
{
}

/// Every request is either looked up or reported as installed already, never both.
pub proof fn law_request_kept_or_reported(
    requested: Map<Seq<char>, Option<Seq<char>>>,
    installed: Map<Seq<char>, SyncModel>,
    mod_id: Seq<char>,
)
    requires
        requested.dom().finite(),
        requested.contains_key(mod_id),
    ensures
        requested.remove_keys(
            requested.dom().filter(|k: Seq<char>| needless(requested, installed, k)),
        ).contains_key(mod_id) <==> !filtered(
            in_order(requested.dom()),
            |k: Seq<char>| needless(requested, installed, k),
        ).contains(mod_id),
{
    lemma_finite_in_order(requested.dom());
    let names = in_order(requested.dom());
    assert(names.to_set().contains(mod_id));
    lemma_filtered(names, |k: Seq<char>| needless(requested, installed, k), mod_id);
}

} // verus!
