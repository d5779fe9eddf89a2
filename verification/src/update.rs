//! The update command: which of the installed mods are updated.

use crate::answers::{answers, askable, ids_may_be, is_id_of, splits};
use crate::errors::{ErrorModel, RustiqueError};
use crate::install_manager::{Install, InstallModel};
use crate::keyed::{
    filtered, in_order, increasing, lemma_filtered, lemma_filtered_increasing,
    lemma_finite_in_order, values_in_order, ModMap,
};
use crate::messages::{Color, Notice, NoticeModel};
use crate::paint::{painted, red};
use crate::questions::{gives_id, law_id_is_given, replies};
use crate::sync::{ModSyncInfo, SyncModel};
use crate::text::{lowercase, same_text, to_lowercase};
use std::path::PathBuf;
use vstd::prelude::*;

verus! {

/// The sync information under the ids of the mods, with or without that of links. Where several
/// have the same id, the last one counts.
pub open spec fn under_ids(
    ids: Seq<Seq<char>>,
    infos: Seq<SyncModel>,
    with_links: bool,
) -> Map<Seq<char>, SyncModel>
    decreases ids.len(),
{
    if ids.len() == 0 {
        Map::empty()
    } else {
        let before = under_ids(ids.drop_last(), infos.drop_last(), with_links);
        if infos.last().is_symlink && !with_links {
            before
        } else {
            before.insert(ids.last(), infos.last())
        }
    }
}

/// Whether `info` is the sync information of a mod whose name the rule splits into this id.
pub open spec fn is_one_of<S: Fn(&str) -> (String, Option<String>)>(
    rule: S,
    synced: Map<Seq<char>, SyncModel>,
    id: Seq<char>,
    info: SyncModel,
) -> bool {
    exists|name: Seq<char>| #[trigger]
        synced.contains_key(name) && gives_id(rule, name, id) && info == synced[name]
}

/// Whether the map has the mod into whose id the rule splits a name.
pub open spec fn is_under_its_id<S: Fn(&str) -> (String, Option<String>)>(
    rule: S,
    name: Seq<char>,
    mods: Map<Seq<char>, SyncModel>,
) -> bool {
    exists|id: Seq<char>| #[trigger] gives_id(rule, name, id) && mods.contains_key(id)
}

/// Under an id stands the last mod with that id, links counting only where they are wanted.
pub proof fn law_last_with_the_id_counts(
    ids: Seq<Seq<char>>,
    infos: Seq<SyncModel>,
    with_links: bool,
    id: Seq<char>,
)
    requires
        ids.len() == infos.len(),
    ensures
        under_ids(ids, infos, with_links).contains_key(id) <==> exists|i: int|
            0 <= i < ids.len() && #[trigger] ids[i] == id && (with_links || !infos[i].is_symlink),
        under_ids(ids, infos, with_links).contains_key(id) ==> exists|i: int|
            0 <= i < ids.len() && #[trigger] ids[i] == id && (with_links || !infos[i].is_symlink)
                && under_ids(ids, infos, with_links)[id] == infos[i] && forall|j: int|
                i < j < ids.len() && !infos[j].is_symlink ==> #[trigger] ids[j] != id,
        with_links && under_ids(ids, infos, with_links).contains_key(id) ==> exists|i: int|
            0 <= i < ids.len() && #[trigger] ids[i] == id && under_ids(ids, infos, with_links)[id]
                == infos[i] && forall|j: int| i < j < ids.len() ==> #[trigger] ids[j] != id,
    decreases ids.len(),
{
    if ids.len() > 0 {
        let rest = ids.drop_last();
        let rest_infos = infos.drop_last();
        let n = ids.len() - 1;
        law_last_with_the_id_counts(rest, rest_infos, with_links, id);
        let before = under_ids(rest, rest_infos, with_links);
        let after = under_ids(ids, infos, with_links);
        if ids[n] == id && (with_links || !infos[n].is_symlink) {
            assert(ids[n] == id && after[id] == infos[n]);
        } else if before.contains_key(id) {
            let i = choose|i: int|
                0 <= i < rest.len() && #[trigger] rest[i] == id && (with_links
                    || !rest_infos[i].is_symlink) && before[id] == rest_infos[i] && forall|j: int|
                    i < j < rest.len() && !rest_infos[j].is_symlink ==> #[trigger] rest[j] != id;
            assert(ids[i] == id);
            assert forall|j: int| i < j < ids.len() && !infos[j].is_symlink implies #[trigger] ids[j]
                != id by {
                if j < n {
                    assert(rest[j] == ids[j]);
                }
            }
            if with_links {
                let l = choose|l: int|
                    0 <= l < rest.len() && #[trigger] rest[l] == id && before[id] == rest_infos[l]
                        && forall|j: int| l < j < rest.len() ==> #[trigger] rest[j] != id;
                assert(ids[l] == id);
                assert forall|j: int| l < j < ids.len() implies #[trigger] ids[j] != id by {
                    if j < n {
                        assert(rest[j] == ids[j]);
                    }
                }
            }
        } else {
            assert forall|i: int| 0 <= i < ids.len() && #[trigger] ids[i] == id implies !(with_links
                || !infos[i].is_symlink) by {
                if i < n {
                    assert(rest[i] == ids[i]);
                }
            }
        }
    }
}

/// Every mod stands under its id with its own sync information, and nothing else does. A link does
/// so only where links are wanted.
pub proof fn law_mods_are_under_their_ids<S: Fn(&str) -> (String, Option<String>)>(
    rule: S,
    synced: Map<Seq<char>, SyncModel>,
    ids: Seq<Seq<char>>,
    with_links: bool,
)
    requires
        synced.dom().finite(),
        ids_may_be(rule, synced, ids),
    ensures
        ({
            let mods = under_ids(ids, values_in_order(synced), with_links);
            &&& forall|id: Seq<char>| #[trigger]
                mods.contains_key(id) ==> is_one_of(rule, synced, id, mods[id])
            &&& forall|id: Seq<char>| #[trigger]
                mods.contains_key(id) ==> with_links || !mods[id].is_symlink
            &&& forall|name: Seq<char>| #[trigger]
                synced.contains_key(name) && (with_links || !synced[name].is_symlink)
                    ==> is_under_its_id(rule, name, mods)
        }),
{
    let names = in_order(synced.dom());
    let infos = values_in_order(synced);
    let mods = under_ids(ids, infos, with_links);
    lemma_finite_in_order(synced.dom());
    assert forall|id: Seq<char>| #[trigger] mods.contains_key(id) implies is_one_of(
        rule,
        synced,
        id,
        mods[id],
    ) && (with_links || !mods[id].is_symlink) by {
        law_last_with_the_id_counts(ids, infos, with_links, id);
        let i = choose|i: int|
            0 <= i < ids.len() && #[trigger] ids[i] == id && (with_links || !infos[i].is_symlink)
                && mods[id] == infos[i] && forall|j: int|
                i < j < ids.len() && !infos[j].is_symlink ==> #[trigger] ids[j] != id;
        assert(is_id_of(rule, names[i], ids[i]));
        law_id_is_given(rule, names[i], ids[i]);
        assert(names.to_set().contains(names[i]));
        assert(synced.contains_key(names[i]));
    }
    assert forall|name: Seq<char>| #[trigger]
        synced.contains_key(name) && (with_links || !synced[name].is_symlink) implies is_under_its_id(
        rule,
        name,
        mods,
    ) by {
        assert(names.to_set().contains(name));
        let i = choose|i: int| 0 <= i < names.len() && names[i] == name;
        assert(is_id_of(rule, names[i], ids[i]));
        law_id_is_given(rule, names[i], ids[i]);
        law_last_with_the_id_counts(ids, infos, with_links, ids[i]);
        assert(infos[i] == synced[name]);
        assert(gives_id(rule, name, ids[i]));
    }
}

fn by_mod_id<S: Fn(&str) -> (String, Option<String>)>(
    synced: &ModMap<ModSyncInfo>,
    with_links: bool,
    split_modid_version: &S,
) -> (r: ModMap<ModSyncInfo>)
    requires
        askable(*split_modid_version),
    ensures
        exists|ids: Seq<Seq<char>>| #[trigger]
            ids_may_be(*split_modid_version, synced@, ids) && r@ == under_ids(
                ids,
                values_in_order(synced@),
                with_links,
            ),
        forall|id: Seq<char>| #[trigger]
            r@.contains_key(id) ==> is_one_of(*split_modid_version, synced@, id, r@[id]),
        forall|id: Seq<char>| #[trigger]
            r@.contains_key(id) ==> with_links || !r@[id].is_symlink,
        forall|name: Seq<char>|
            #[trigger] synced@.contains_key(name) && (with_links || !synced@[name].is_symlink) ==> is_under_its_id(
                *split_modid_version,
                name,
                r@,
            ),
{
    let mut r: ModMap<ModSyncInfo> = ModMap::new();
    let n = synced.len();
    let ghost names = in_order(synced@.dom());
    let ghost infos = values_in_order(synced@);
    let ghost mut ids: Seq<Seq<char>> = Seq::empty();
    assert(infos.take(0) =~= Seq::empty());
    let mut i: usize = 0;
    while i < n
        invariant
            i <= n,
            n == names.len(),
            n == synced@.dom().len(),
            names == in_order(synced@.dom()),
            infos == values_in_order(synced@),
            askable(*split_modid_version),
            ids.len() == i,
            forall|j: int|
                0 <= j < i ==> is_id_of(*split_modid_version, names[j], #[trigger] ids[j]),
            r@ == under_ids(ids, infos.take(i as int), with_links),
        decreases n - i,
    {
        let name = synced.name_at(i);
        let info = synced.value_at(i);
        let split = split_modid_version(name.as_str());
        let ghost before = ids;
        proof {
            assert(answers(*split_modid_version, name@, split));
            assert(splits(*split_modid_version, name@, split.0@, split.1.deep_view()));
            assert(is_id_of(*split_modid_version, names[i as int], split.0@));
            ids = before.push(split.0@);
            assert(ids.drop_last() =~= before);
            assert(infos.take(i + 1).drop_last() =~= infos.take(i as int));
            assert(infos.take(i + 1).last() == info.deep_view());
        }
        if with_links || !info.is_symlink {
            r.insert(split.0, info.clone());
        }
        i = i + 1;
    }
    assert(infos.take(n as int) =~= infos);
    assert(ids_may_be(*split_modid_version, synced@, ids));
    proof {
        law_mods_are_under_their_ids(*split_modid_version, synced@, ids, with_links);
    }
    r
}

/// Everything that is in the mod directory, links included, by the ids of the mods. A link into a
/// modpack satisfies a dependency just as well as a real file does. `split_modid_version` splits a
/// name at the version.
pub fn installed_mods<S: Fn(&str) -> (String, Option<String>)>(
    synced: &ModMap<ModSyncInfo>,
    split_modid_version: &S,
) -> (r: ModMap<ModSyncInfo>)
    requires
        askable(*split_modid_version),
    ensures
        exists|ids: Seq<Seq<char>>| #[trigger]
            ids_may_be(*split_modid_version, synced@, ids) && r@ == under_ids(
                ids,
                values_in_order(synced@),
                true,
            ),
        forall|id: Seq<char>| #[trigger]
            r@.contains_key(id) ==> is_one_of(*split_modid_version, synced@, id, r@[id]),
        forall|name: Seq<char>|
            #[trigger] synced@.contains_key(name) ==> is_under_its_id(
                *split_modid_version,
                name,
                r@,
            ),
{
    by_mod_id(synced, true, split_modid_version)
}

/// What can be updated, by the ids of the mods: everything but links, whose files belong to a
/// modpack. `split_modid_version` splits a name at the version.
pub fn updatable_mods<S: Fn(&str) -> (String, Option<String>)>(
    synced: &ModMap<ModSyncInfo>,
    split_modid_version: &S,
) -> (r: ModMap<ModSyncInfo>)
    requires
        askable(*split_modid_version),
    ensures
        exists|ids: Seq<Seq<char>>| #[trigger]
            ids_may_be(*split_modid_version, synced@, ids) && r@ == under_ids(
                ids,
                values_in_order(synced@),
                false,
            ),
        forall|id: Seq<char>| #[trigger]
            r@.contains_key(id) ==> is_one_of(*split_modid_version, synced@, id, r@[id]),
        forall|id: Seq<char>| #[trigger] r@.contains_key(id) ==> !r@[id].is_symlink,
        forall|name: Seq<char>|
            #[trigger] synced@.contains_key(name) && !synced@[name].is_symlink ==> is_under_its_id(
                *split_modid_version,
                name,
                r@,
            ),
{
    by_mod_id(synced, false, split_modid_version)
}

/// What is said of a typed id, in lowercase, that is of no mod that can be updated.
pub open spec fn unknown_notice(id: Seq<char>) -> NoticeModel {
    NoticeModel {
        text: painted("\u{1b}[31m"@, id)
            + " is not a installed mod, check your modid and try again"@,
        color: Color::Yellow,
    }
}

/// Whether one of the typed ids is `id` in lowercase.
pub open spec fn names_id(typed: Seq<Seq<char>>, id: Seq<char>) -> bool {
    exists|i: int| 0 <= i < typed.len() && lowercase(#[trigger] typed[i]) == id
}

/// The mods that the typed ids name, whatever the case in which they are typed.
pub open spec fn named_mods(
    updatable: Map<Seq<char>, SyncModel>,
    typed: Seq<Seq<char>>,
) -> Map<Seq<char>, SyncModel> {
    Map::new(
        |id: Seq<char>| updatable.contains_key(id) && names_id(typed, id),
        |id: Seq<char>| updatable[id],
    )
}

/// What there is to say of the typed ids, in their order.
pub open spec fn unknown_notices(
    updatable: Map<Seq<char>, SyncModel>,
    typed: Seq<Seq<char>>,
) -> Seq<NoticeModel>
    decreases typed.len(),
{
    if typed.len() == 0 {
        Seq::empty()
    } else {
        let before = unknown_notices(updatable, typed.drop_last());
        let id = lowercase(typed.last());
        if updatable.contains_key(id) {
            before
        } else {
            before.push(unknown_notice(id))
        }
    }
}

/// Every typed id that is of no mod that can be updated is told.
pub proof fn law_unknown_ids_are_told(
    updatable: Map<Seq<char>, SyncModel>,
    typed: Seq<Seq<char>>,
    i: int,
)
    requires
        0 <= i < typed.len(),
    ensures
        !updatable.contains_key(lowercase(typed[i])) ==> unknown_notices(
            updatable,
            typed,
        ).contains(unknown_notice(lowercase(typed[i]))),
    decreases typed.len(),
{
    let before = unknown_notices(updatable, typed.drop_last());
    let all = unknown_notices(updatable, typed);
    let notice = unknown_notice(lowercase(typed[i]));
    if i < typed.len() - 1 {
        law_unknown_ids_are_told(updatable, typed.drop_last(), i);
        if before.contains(notice) {
            let k = choose|k: int| 0 <= k < before.len() && before[k] == notice;
            assert(all[k] == notice);
        }
    } else if !updatable.contains_key(lowercase(typed[i])) {
        assert(all[before.len() as int] == notice);
    }
}

/// What is told about typed ids comes in their order: what is told about more of them comes behind,
/// and about one of them one thing is told, or nothing where it is of a mod that can be updated.
pub proof fn law_unknown_ids_are_told_in_order(
    updatable: Map<Seq<char>, SyncModel>,
    a: Seq<Seq<char>>,
    b: Seq<Seq<char>>,
)
    ensures
        unknown_notices(updatable, a + b) == unknown_notices(updatable, a) + unknown_notices(
            updatable,
            b,
        ),
        a.len() == 1 ==> unknown_notices(updatable, a).len() == (if updatable.contains_key(
            lowercase(a[0]),
        ) {
            0int
        } else {
            1int
        }),
    decreases b.len(),
{
    if a.len() == 1 {
        assert(unknown_notices(updatable, a.drop_last()).len() == 0);
    }
    if b.len() == 0 {
        assert(a + b =~= a);
        assert(unknown_notices(updatable, a) + unknown_notices(updatable, b) =~= unknown_notices(
            updatable,
            a,
        ));
    } else {
        law_unknown_ids_are_told_in_order(updatable, a, b.drop_last());
        assert((a + b).drop_last() =~= a + b.drop_last());
        assert(unknown_notices(updatable, a + b) =~= unknown_notices(updatable, a)
            + unknown_notices(updatable, b));
    }
}

/// Selects the mods whose version is looked at: all that can be updated where no id is typed,
/// else those that are named. There is an error where ids are typed and none of them is of a mod
/// that can be updated. Hands back what there is to say about the ids as well.
pub fn select_updates(updatable: ModMap<ModSyncInfo>, typed: &Vec<String>) -> (r: (
    Result<ModMap<ModSyncInfo>, RustiqueError>,
    Vec<Notice>,
))
    ensures
        match r.0 {
            Ok(mods) => mods@ == (if typed.len() == 0 {
                updatable@
            } else {
                named_mods(updatable@, typed.deep_view())
            }),
            Err(e) => e.deep_view() == ErrorModel::SimpleError(
                "No valid update ids or the mod dir is empty..\n\r"@,
            ),
        },
        r.0 is Err <==> typed.len() > 0 && forall|i: int|
            0 <= i < typed.len() ==> !updatable@.contains_key(
                lowercase(#[trigger] typed.deep_view()[i]),
            ),
        r.1.deep_view() == unknown_notices(updatable@, typed.deep_view()),
        r.0 matches Ok(mods) ==> mods@.submap_of(updatable@) && forall|id: Seq<char>| #[trigger]
            updatable@.contains_key(id) ==> (mods@.contains_key(id) <==> typed.len() == 0
                || exists|i: int|
                0 <= i < typed.len() && lowercase(#[trigger] typed.deep_view()[i]) == id),
        forall|i: int|
            0 <= i < typed.len() && !updatable@.contains_key(
                lowercase(#[trigger] typed.deep_view()[i]),
            ) ==> r.1.deep_view().contains(
                NoticeModel {
                    text: painted("\u{1b}[31m"@, lowercase(typed.deep_view()[i]))
                        + " is not a installed mod, check your modid and try again"@,
                    color: Color::Yellow,
                },
            ),
{
    proof {
        assert forall|i: int|
            0 <= i < typed.len() && !updatable@.contains_key(
                lowercase(#[trigger] typed.deep_view()[i]),
            ) implies unknown_notices(updatable@, typed.deep_view()).contains(
            unknown_notice(lowercase(typed.deep_view()[i])),
        ) by {
            law_unknown_ids_are_told(updatable@, typed.deep_view(), i);
        }
    }
    let mut notices: Vec<Notice> = Vec::new();
    let ghost ids = typed.deep_view();
    proof {
        assert(ids.take(0) =~= Seq::empty());
        assert(notices.deep_view() =~= Seq::empty());
    }
    if typed.len() == 0 {
        assert(ids =~= Seq::empty());
        return (Ok(updatable), notices);
    }
    let mut mods: ModMap<ModSyncInfo> = ModMap::new();
    let mut any = false;
    let mut i: usize = 0;
    assert(mods@ =~= named_mods(updatable@, ids.take(0)));
    while i < typed.len()
        invariant
            i <= typed.len(),
            ids == typed.deep_view(),
            mods@ == named_mods(updatable@, ids.take(i as int)),
            notices.deep_view() == unknown_notices(updatable@, ids.take(i as int)),
            any == exists|j: int|
                0 <= j < i && updatable@.contains_key(lowercase(#[trigger] ids[j])),
        decreases typed.len() - i,
    {
        let id = to_lowercase(typed[i].as_str());
        let ghost before = ids.take(i as int);
        let ghost after = ids.take(i + 1);
        let ghost old_notices = notices.deep_view();
        let ghost old_mods = mods@;
        let ghost was_any = any;
        proof {
            assert(ids[i as int] == typed[i as int]@);
            assert(after.drop_last() =~= before);
            assert(after.last() == ids[i as int]);
        }
        match updatable.get(id.as_str()) {
            Some(info) => {
                if !mods.contains_key(id.as_str()) {
                    mods.insert(id.clone(), info.clone());
                }
                any = true;
                assert(updatable@.contains_key(lowercase(ids[i as int])));
            },
            None => {
                let mut text = red(id.as_str());
                text.append(" is not a installed mod, check your modid and try again");
                let notice = Notice { text, color: Color::Yellow };
                notices.push(notice);
                assert(notices.deep_view() =~= old_notices.push(unknown_notice(id@)));
            },
        }
        proof {
            assert forall|k: Seq<char>| #[trigger]
                names_id(after, k) <==> names_id(before, k) || k == id@ by {
                if names_id(before, k) {
                    let j = choose|j: int|
                        0 <= j < before.len() && lowercase(#[trigger] before[j]) == k;
                    assert(lowercase(after[j]) == k);
                }
                if names_id(after, k) {
                    let j = choose|j: int|
                        0 <= j < after.len() && lowercase(#[trigger] after[j]) == k;
                    if j < i {
                        assert(lowercase(before[j]) == k);
                    }
                }
                assert(lowercase(after[i as int]) == id@);
            }
            assert(mods@ =~= named_mods(updatable@, after));
            if any {
                if was_any {
                    let j = choose|j: int|
                        0 <= j < i && updatable@.contains_key(lowercase(#[trigger] ids[j]));
                    assert(0 <= j < i + 1 && updatable@.contains_key(lowercase(ids[j])));
                }
            }
        }
        i = i + 1;
    }
    assert(ids.take(typed.len() as int) =~= ids);
    if any {
        (Ok(mods), notices)
    } else {
        (
            Err(
                RustiqueError::SimpleError(
                    "No valid update ids or the mod dir is empty..\n\r".to_owned(),
                ),
            ),
            notices,
        )
    }
}

/// Whether a mod is updated: its id is there, the sync knows its latest version, and that is not
/// the one that is installed.
pub open spec fn outdated(mod_id: Seq<char>, info: SyncModel) -> bool {
    &&& mod_id.len() > 0
    &&& info.latest_known_version.len() > 0
    &&& info.latest_known_version != info.installed_version
}

/// The row for a mod whose latest version the last sync could not find out.
pub open spec fn no_version_row(mod_id: Seq<char>) -> Seq<char> {
    mod_id
        + "\nNo version information from the last sync. It may no longer be on the mod site, or nothing matches your pinned constraints."@
}

/// The update of a mod whose file is at `path`.
pub open spec fn update_of(mod_id: Seq<char>, info: SyncModel, path: PathBuf) -> InstallModel {
    InstallModel {
        mod_id: lowercase(mod_id),
        mod_name: info.mod_name,
        version_to_install: info.latest_known_version,
        download_url: info.latest_download_url,
        current_file_path: Some(path),
    }
}

/// The mods that are updated, in the order of their ids.
pub open spec fn outdated_ids(ids: Seq<Seq<char>>, mods: Map<Seq<char>, SyncModel>) -> Seq<
    Seq<char>,
> {
    filtered(ids, |id: Seq<char>| outdated(id, mods[id]))
}

/// The rows of the mods among `ids` without version information, in their order.
pub open spec fn no_version_rows(
    ids: Seq<Seq<char>>,
    mods: Map<Seq<char>, SyncModel>,
) -> Seq<Seq<char>>
    decreases ids.len(),
{
    if ids.len() == 0 {
        Seq::empty()
    } else {
        let before = no_version_rows(ids.drop_last(), mods);
        if mods[ids.last()].latest_known_version.len() == 0 && ids.last().len() > 0 {
            before.push(no_version_row(ids.last()))
        } else {
            before
        }
    }
}

/// Whether `install` may be the update of a mod.
pub open spec fn is_update<L: Fn(&str) -> PathBuf>(
    rule: L,
    mod_id: Seq<char>,
    info: SyncModel,
    install: InstallModel,
) -> bool {
    exists|path: PathBuf| #[trigger]
        answers(rule, info.file_name, path) && install == update_of(mod_id, info, path)
}

/// Whether `installs` may be the updates of the mods `ids`.
pub open spec fn updates_may_be<L: Fn(&str) -> PathBuf>(
    rule: L,
    ids: Seq<Seq<char>>,
    mods: Map<Seq<char>, SyncModel>,
    installs: Seq<InstallModel>,
) -> bool {
    &&& installs.len() == ids.len()
    &&& forall|i: int|
        0 <= i < ids.len() ==> is_update(rule, ids[i], mods[ids[i]], #[trigger] installs[i])
}

/// Makes the list of updates, in the order of the ids, and that of the rows about the mods without
/// version information. `locate` gives the path of a file in the mod directory.
pub fn plan_updates<L: Fn(&str) -> PathBuf>(mods: &ModMap<ModSyncInfo>, locate: &L) -> (r: (
    Vec<Install>,
    Vec<String>,
))
    requires
        askable(*locate),
    ensures
        updates_may_be(
            *locate,
            outdated_ids(in_order(mods@.dom()), mods@),
            mods@,
            r.0.deep_view(),
        ),
        r.1.deep_view() == no_version_rows(in_order(mods@.dom()), mods@),
        forall|id: Seq<char>| #[trigger]
            mods@.contains_key(id) && id.len() > 0 && mods@[id].latest_known_version.len() > 0
                && mods@[id].latest_known_version != mods@[id].installed_version ==> exists|k: int|
                {
                    &&& 0 <= k < r.0.len()
                    &&& (#[trigger] r.0.deep_view()[k]).mod_id == lowercase(id)
                    &&& r.0.deep_view()[k].mod_name == mods@[id].mod_name
                    &&& r.0.deep_view()[k].version_to_install == mods@[id].latest_known_version
                    &&& r.0.deep_view()[k].download_url == mods@[id].latest_download_url
                },
        forall|k: int|
            0 <= k < r.0.len() ==> (#[trigger] r.0.deep_view()[k]).current_file_path is Some
                && exists|id: Seq<char>|
                {
                    &&& #[trigger] mods@.contains_key(id)
                    &&& id.len() > 0
                    &&& mods@[id].latest_known_version.len() > 0
                    &&& mods@[id].latest_known_version != mods@[id].installed_version
                    &&& r.0.deep_view()[k].mod_id == lowercase(id)
                    &&& r.0.deep_view()[k].mod_name == mods@[id].mod_name
                    &&& r.0.deep_view()[k].version_to_install == mods@[id].latest_known_version
                    &&& r.0.deep_view()[k].download_url == mods@[id].latest_download_url
                    &&& replies(
                        *locate,
                        mods@[id].file_name,
                        r.0.deep_view()[k].current_file_path->0,
                    )
                },
        forall|id: Seq<char>| #[trigger]
            mods@.contains_key(id) && id.len() > 0 && mods@[id].latest_known_version.len() == 0
                ==> r.1.deep_view().contains(
                id
                    + "\nNo version information from the last sync. It may no longer be on the mod site, or nothing matches your pinned constraints."@,
            ),
        forall|k: int|
            0 <= k < r.1.len() ==> (#[trigger] r.1.deep_view()[k]).len() > 0 && exists|
                id: Seq<char>,
            |
                {
                    &&& #[trigger] mods@.contains_key(id)
                    &&& id.len() > 0
                    &&& mods@[id].latest_known_version.len() == 0
                    &&& r.1.deep_view()[k] == id
                        + "\nNo version information from the last sync. It may no longer be on the mod site, or nothing matches your pinned constraints."@
                },
{
    let mut installs: Vec<Install> = Vec::new();
    let mut rows: Vec<String> = Vec::new();
    let ghost names = in_order(mods@.dom());
    let n = mods.len();
    proof {
        assert(names.take(0) =~= Seq::empty());
        assert(rows.deep_view() =~= Seq::empty());
    }
    let mut i: usize = 0;
    while i < n
        invariant
            i <= n,
            n == names.len(),
            n == mods@.dom().len(),
            names == in_order(mods@.dom()),
            askable(*locate),
            updates_may_be(
                *locate,
                outdated_ids(names.take(i as int), mods@),
                mods@,
                installs.deep_view(),
            ),
            rows.deep_view() == no_version_rows(names.take(i as int), mods@),
        decreases n - i,
    {
        let mod_id = mods.name_at(i);
        let info = mods.value_at(i);
        let ghost old_rows = rows.deep_view();
        let ghost old_installs = installs.deep_view();
        let ghost old_ids = outdated_ids(names.take(i as int), mods@);
        proof {
            assert(names.take(i + 1).drop_last() =~= names.take(i as int));
            assert(names.take(i + 1).last() == mod_id@);
        }
        if info.latest_known_version.as_str().is_empty() {
            if !mod_id.as_str().is_empty() {
                let mut row = mod_id.clone();
                row.append(
                    "\nNo version information from the last sync. It may no longer be on the mod site, or nothing matches your pinned constraints.",
                );
                rows.push(row);
                assert(rows.deep_view() =~= old_rows.push(no_version_row(mod_id@)));
            }
        } else if !same_text(
            info.latest_known_version.as_str(),
            info.installed_version.as_str(),
        ) && !mod_id.as_str().is_empty() {
            let path = locate(info.file_name.as_str());
            assert(answers(*locate, info.file_name@, path));
            let install = Install {
                mod_id: to_lowercase(mod_id.as_str()),
                mod_name: info.mod_name.clone(),
                version_to_install: info.latest_known_version.clone(),
                download_url: info.latest_download_url.clone(),
                current_file_path: Some(path),
            };
            installs.push(install);
            proof {
                let new_ids = outdated_ids(names.take(i + 1), mods@);
                assert(new_ids == old_ids.push(mod_id@));
                assert(installs.deep_view() =~= old_installs.push(install.deep_view()));
                assert(install.deep_view() == update_of(mod_id@, mods@[mod_id@], path));
                assert(answers(*locate, mods@[mod_id@].file_name, path));
                assert(is_update(*locate, mod_id@, mods@[mod_id@], install.deep_view()));
                let new_installs = installs.deep_view();
                assert forall|j: int| 0 <= j < new_ids.len() implies is_update(
                    *locate,
                    new_ids[j],
                    mods@[new_ids[j]],
                    #[trigger] new_installs[j],
                ) by {
                    if j < old_ids.len() {
                        assert(old_installs[j] == new_installs[j]);
                        assert(old_ids[j] == new_ids[j]);
                    }
                }
            }
        }
        i = i + 1;
    }
    assert(names.take(n as int) =~= names);
    proof {
        let updates = installs.deep_view();
        assert forall|id: Seq<char>| #[trigger]
            mods@.contains_key(id) && id.len() > 0 && mods@[id].latest_known_version.len() > 0
                && mods@[id].latest_known_version
                != mods@[id].installed_version implies exists|k: int|
            {
                &&& 0 <= k < updates.len()
                &&& (#[trigger] updates[k]).mod_id == lowercase(id)
                &&& updates[k].mod_name == mods@[id].mod_name
                &&& updates[k].version_to_install == mods@[id].latest_known_version
                &&& updates[k].download_url == mods@[id].latest_download_url
            } by {
            law_waiting_updates_are_made(*locate, mods@, updates, id);
        }
        assert forall|k: int| 0 <= k < updates.len() implies (
        #[trigger] updates[k]).current_file_path is Some && exists|id: Seq<char>|
            {
                &&& #[trigger] mods@.contains_key(id)
                &&& id.len() > 0
                &&& mods@[id].latest_known_version.len() > 0
                &&& mods@[id].latest_known_version != mods@[id].installed_version
                &&& updates[k].mod_id == lowercase(id)
                &&& updates[k].mod_name == mods@[id].mod_name
                &&& updates[k].version_to_install == mods@[id].latest_known_version
                &&& updates[k].download_url == mods@[id].latest_download_url
                &&& replies(*locate, mods@[id].file_name, updates[k].current_file_path->0)
            } by {
            law_every_update_is_waiting(*locate, mods@, updates, k);
        }
        law_rows_name_the_mods_without_version(mods@);
    }
    (installs, rows)
}

/// What the end of an update asks for next.
#[derive(Debug, PartialEq, Eq, Structural, Clone, Copy)]
pub enum CleanupAction {
    /// Back the files up that were replaced.
    BackUp,
    /// Remove the files that were replaced.
    Remove,
    /// Show what was installed.
    Show,
    /// Hand on why a step failed.
    GiveUp,
}

/// What came of the last thing that the end of an update asked for.
#[derive(Debug, PartialEq, Eq, Structural, Clone, Copy)]
pub enum CleanupEvent {
    Installed,
    BackedUp,
    Removed,
    Failed,
}

/// What an event asks for.
pub open spec fn cleanup_action(
    backup_mods: bool,
    keep_old_files: bool,
    event: CleanupEvent,
) -> CleanupAction {
    let rest = if keep_old_files {
        CleanupAction::Show
    } else {
        CleanupAction::Remove
    };
    match event {
        CleanupEvent::Installed => if backup_mods {
            CleanupAction::BackUp
        } else {
            rest
        },
        CleanupEvent::BackedUp => rest,
        CleanupEvent::Removed => CleanupAction::Show,
        CleanupEvent::Failed => CleanupAction::GiveUp,
    }
}

/// Decides how the end of an update goes on: replaced files are backed up where the configuration
/// says so, and then removed unless they are to be kept.
pub fn next_cleanup_action(
    backup_mods: bool,
    keep_old_files: bool,
    event: CleanupEvent,
) -> (r: CleanupAction)
    ensures
        r == cleanup_action(backup_mods, keep_old_files, event),
        r == CleanupAction::BackUp <==> backup_mods && event == CleanupEvent::Installed,
        r == CleanupAction::Remove <==> !keep_old_files && (event == CleanupEvent::BackedUp || event
            == CleanupEvent::Installed && !backup_mods),
        r == CleanupAction::GiveUp <==> event == CleanupEvent::Failed,
{
    match event {
        CleanupEvent::Installed if backup_mods => CleanupAction::BackUp,
        CleanupEvent::Installed | CleanupEvent::BackedUp => if keep_old_files {
            CleanupAction::Show
        } else {
            CleanupAction::Remove
        },
        CleanupEvent::Removed => CleanupAction::Show,
        CleanupEvent::Failed => CleanupAction::GiveUp,
    }
}

/// Whether the events may come one after the other at the end of an update.
pub open spec fn cleans_up(
    backup_mods: bool,
    keep_old_files: bool,
    events: Seq<CleanupEvent>,
) -> bool {
    &&& events.len() > 0 ==> events[0] == CleanupEvent::Installed
    &&& forall|i: int|
        0 < i < events.len() ==> {
            let action = cleanup_action(backup_mods, keep_old_files, events[i - 1]);
            match #[trigger] events[i] {
                CleanupEvent::Installed => false,
                CleanupEvent::BackedUp => action == CleanupAction::BackUp,
                CleanupEvent::Removed => action == CleanupAction::Remove,
                CleanupEvent::Failed => action == CleanupAction::BackUp || action
                    == CleanupAction::Remove,
            }
        }
}

/// The end of an update always comes to what is asked for: replaced files are backed up exactly
/// where backups are asked for, whether or not old files are kept, and they are removed exactly
/// where they are not kept, once there is no backup left to make. Whatever fails is handed on, and
/// what is left is to show what was installed.
pub proof fn law_cleanup_does_what_is_asked(
    backup_mods: bool,
    keep_old_files: bool,
    event: CleanupEvent,
)
    ensures
        ({
            let action = cleanup_action(backup_mods, keep_old_files, event);
            let backed_up = event == CleanupEvent::BackedUp || (event == CleanupEvent::Installed
                && !backup_mods);
            &&& action == CleanupAction::BackUp <==> event == CleanupEvent::Installed && backup_mods
            &&& action == CleanupAction::Remove <==> backed_up && !keep_old_files
            &&& action == CleanupAction::GiveUp <==> event == CleanupEvent::Failed
            &&& action == CleanupAction::Show <==> event == CleanupEvent::Removed || (backed_up
                && keep_old_files)
        }),
{
}

/// An old file is removed only where old files are not kept, and only once its backup was made
/// where backups are asked for. In particular nothing is removed where the backup failed.
pub proof fn law_removed_only_after_backup(
    backup_mods: bool,
    keep_old_files: bool,
    events: Seq<CleanupEvent>,
    i: int,
)
    requires
        cleans_up(backup_mods, keep_old_files, events),
        0 <= i < events.len(),
        cleanup_action(backup_mods, keep_old_files, events[i]) == CleanupAction::Remove,
    ensures
        !keep_old_files,
        backup_mods ==> i == 1 && events[1] == CleanupEvent::BackedUp,
        !backup_mods ==> i == 0,
{
    if i > 0 {
        assert(events[i] == CleanupEvent::BackedUp);
        assert(events[i - 1] == CleanupEvent::Installed);
        if i > 1 {
            assert(events[i - 1] != CleanupEvent::Installed);
        }
    }
}

/// A link is never updated: its file belongs to a modpack.
pub proof fn law_links_never_updated(ids: Seq<Seq<char>>, infos: Seq<SyncModel>, id: Seq<char>)
    requires
        ids.len() == infos.len(),
        under_ids(ids, infos, false).contains_key(id),
    ensures
        !under_ids(ids, infos, false)[id].is_symlink,
    decreases ids.len(),
{
    let rest = under_ids(ids.drop_last(), infos.drop_last(), false);
    if rest.contains_key(id) {
        law_links_never_updated(ids.drop_last(), infos.drop_last(), id);
    }
}

/// What can be updated is installed.
pub proof fn law_updatable_are_installed(ids: Seq<Seq<char>>, infos: Seq<SyncModel>)
    requires
        ids.len() == infos.len(),
    ensures
        under_ids(ids, infos, false).dom().subset_of(under_ids(ids, infos, true).dom()),
    decreases ids.len(),
{
    if ids.len() > 0 {
        law_updatable_are_installed(ids.drop_last(), infos.drop_last());
    }
}

/// A mod is downloaded only where an update is waiting: where the version on the site is known and
/// is another one than the one installed. In particular, a mod that the sync knows no version of
/// never looks like an update.
pub proof fn law_only_outdated_mods_updated<L: Fn(&str) -> PathBuf>(
    rule: L,
    mods: Map<Seq<char>, SyncModel>,
    installs: Seq<InstallModel>,
    i: int,
)
    requires
        mods.dom().finite(),
        updates_may_be(rule, outdated_ids(in_order(mods.dom()), mods), mods, installs),
        0 <= i < installs.len(),
    ensures
        ({
            let id = outdated_ids(in_order(mods.dom()), mods)[i];
            &&& mods.contains_key(id)
            &&& outdated(id, mods[id])
            &&& installs[i].mod_id == lowercase(id)
            &&& installs[i].version_to_install == mods[id].latest_known_version
            &&& installs[i].download_url == mods[id].latest_download_url
        }),
{
    let ids = outdated_ids(in_order(mods.dom()), mods);
    let id = ids[i];
    lemma_finite_in_order(mods.dom());
    lemma_filtered(in_order(mods.dom()), |id: Seq<char>| outdated(id, mods[id]), id);
    assert(ids.contains(id));
    assert(in_order(mods.dom()).to_set().contains(id));
    assert(is_update(rule, id, mods[id], installs[i]));
}

/// A mod that the last sync found no version of is not passed over in silence.
pub proof fn law_missing_versions_reported(
    ids: Seq<Seq<char>>,
    mods: Map<Seq<char>, SyncModel>,
    i: int,
)
    requires
        0 <= i < ids.len(),
        ids[i].len() > 0,
        mods[ids[i]].latest_known_version.len() == 0,
    ensures
        no_version_rows(ids, mods).contains(no_version_row(ids[i])),
    decreases ids.len(),
{
    let before = no_version_rows(ids.drop_last(), mods);
    let after = no_version_rows(ids, mods);
    if i < ids.len() - 1 {
        law_missing_versions_reported(ids.drop_last(), mods, i);
        let j = choose|j: int| 0 <= j < before.len() && before[j] == no_version_row(ids[i]);
        assert(after[j] == no_version_row(ids[i]));
    } else {
        assert(after[before.len() as int] == no_version_row(ids[i]));
    }
}

/// Every update that is waiting is made: a mod whose latest version is known and is another text than
/// the version installed is downloaded at just that latest version, whichever of the two versions
/// comes first.
pub proof fn law_waiting_updates_are_made<L: Fn(&str) -> PathBuf>(
    rule: L,
    mods: Map<Seq<char>, SyncModel>,
    installs: Seq<InstallModel>,
    id: Seq<char>,
)
    requires
        mods.dom().finite(),
        updates_may_be(rule, outdated_ids(in_order(mods.dom()), mods), mods, installs),
        mods.contains_key(id),
        id.len() > 0,
        mods[id].latest_known_version.len() > 0,
        mods[id].latest_known_version != mods[id].installed_version,
    ensures
        exists|k: int|
            {
                &&& 0 <= k < installs.len()
                &&& (#[trigger] installs[k]).mod_id == lowercase(id)
                &&& installs[k].mod_name == mods[id].mod_name
                &&& installs[k].version_to_install == mods[id].latest_known_version
                &&& installs[k].download_url == mods[id].latest_download_url
                &&& installs[k].current_file_path is Some
                &&& replies(rule, mods[id].file_name, installs[k].current_file_path->0)
            },
{
    let names = in_order(mods.dom());
    let ids = outdated_ids(names, mods);
    lemma_finite_in_order(mods.dom());
    lemma_filtered(names, |id: Seq<char>| outdated(id, mods[id]), id);
    assert(names.to_set().contains(id));
    let k = choose|k: int| 0 <= k < ids.len() && ids[k] == id;
    assert(is_update(rule, ids[k], mods[ids[k]], installs[k]));
}

/// Every update is of a mod whose latest version is known and is another text than the version
/// installed, and it replaces the file of that mod.
pub proof fn law_every_update_is_waiting<L: Fn(&str) -> PathBuf>(
    rule: L,
    mods: Map<Seq<char>, SyncModel>,
    installs: Seq<InstallModel>,
    k: int,
)
    requires
        mods.dom().finite(),
        updates_may_be(rule, outdated_ids(in_order(mods.dom()), mods), mods, installs),
        0 <= k < installs.len(),
    ensures
        installs[k].current_file_path is Some,
        exists|id: Seq<char>|
            {
                &&& #[trigger] mods.contains_key(id)
                &&& id.len() > 0
                &&& mods[id].latest_known_version.len() > 0
                &&& mods[id].latest_known_version != mods[id].installed_version
                &&& installs[k].mod_id == lowercase(id)
                &&& installs[k].mod_name == mods[id].mod_name
                &&& installs[k].version_to_install == mods[id].latest_known_version
                &&& installs[k].download_url == mods[id].latest_download_url
                &&& replies(rule, mods[id].file_name, installs[k].current_file_path->0)
            },
{
    let names = in_order(mods.dom());
    let ids = outdated_ids(names, mods);
    let id = ids[k];
    lemma_finite_in_order(mods.dom());
    lemma_filtered(names, |id: Seq<char>| outdated(id, mods[id]), id);
    assert(ids.contains(id));
    assert(names.to_set().contains(id));
    assert(is_update(rule, ids[k], mods[ids[k]], installs[k]));
    assert(mods.contains_key(id));
}

/// The updates come in the order of the ids, at most one for each of them.
pub proof fn law_updates_come_in_the_order_of_ids(
    mods: Map<Seq<char>, SyncModel>,
    ids: Seq<Seq<char>>,
)
    requires
        increasing(ids),
    ensures
        increasing(outdated_ids(ids, mods)),
{
    lemma_filtered_increasing(ids, |id: Seq<char>| outdated(id, mods[id]));
}

proof fn lemma_row_of(ids: Seq<Seq<char>>, mods: Map<Seq<char>, SyncModel>, k: int) -> (i: int)
    requires
        0 <= k < no_version_rows(ids, mods).len(),
    ensures
        0 <= i < ids.len(),
        ids[i].len() > 0,
        mods[ids[i]].latest_known_version.len() == 0,
        no_version_rows(ids, mods)[k] == no_version_row(ids[i]),
    decreases ids.len(),
{
    let rest = ids.drop_last();
    let before = no_version_rows(rest, mods);
    if k < before.len() {
        let i = lemma_row_of(rest, mods, k);
        assert(ids[i] == rest[i]);
        i
    } else {
        ids.len() - 1
    }
}

/// The mods that the last sync found no version of are named, each by its id, and no others are.
pub proof fn law_rows_name_the_mods_without_version(mods: Map<Seq<char>, SyncModel>)
    requires
        mods.dom().finite(),
    ensures
        ({
            let rows = no_version_rows(in_order(mods.dom()), mods);
            &&& forall|id: Seq<char>| #[trigger]
                mods.contains_key(id) && id.len() > 0 && mods[id].latest_known_version.len() == 0
                    ==> rows.contains(
                    id
                        + "\nNo version information from the last sync. It may no longer be on the mod site, or nothing matches your pinned constraints."@,
                )
            &&& forall|k: int|
                0 <= k < rows.len() ==> (#[trigger] rows[k]).len() > 0 && exists|id: Seq<char>|
                    {
                        &&& #[trigger] mods.contains_key(id)
                        &&& id.len() > 0
                        &&& mods[id].latest_known_version.len() == 0
                        &&& rows[k] == id
                            + "\nNo version information from the last sync. It may no longer be on the mod site, or nothing matches your pinned constraints."@
                    }
        }),
{
    let names = in_order(mods.dom());
    let rows = no_version_rows(names, mods);
    lemma_finite_in_order(mods.dom());
    assert forall|id: Seq<char>| #[trigger]
        mods.contains_key(id) && id.len() > 0 && mods[id].latest_known_version.len()
            == 0 implies rows.contains(no_version_row(id)) by {
        assert(names.to_set().contains(id));
        let i = choose|i: int| 0 <= i < names.len() && names[i] == id;
        law_missing_versions_reported(names, mods, i);
    }
    assert forall|k: int| 0 <= k < rows.len() implies (#[trigger] rows[k]).len() > 0 && exists|
        id: Seq<char>,
    |
        {
            &&& #[trigger] mods.contains_key(id)
            &&& id.len() > 0
            &&& mods[id].latest_known_version.len() == 0
            &&& rows[k] == no_version_row(id)
        } by {
        let i = lemma_row_of(names, mods, k);
        assert(names.to_set().contains(names[i]));
        assert(mods.contains_key(names[i]));
    }
}

} // verus!
