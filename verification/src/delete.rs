//! The delete command: which files go, and what stays known of their mods.

use crate::aliases::{ModFileName, ModID, ModVersion};
use crate::errors::{ErrorModel, RustiqueError};
use crate::keyed::{
    filtered, in_order, increasing, lemma_filtered, lemma_filtered_increasing,
    lemma_finite_in_order, ModMap,
};
use crate::messages::{
    bracketed, CellAlignment, CellData, CellModel, Color, Notice, NoticeModel,
};
use crate::sync::{ModSyncInfo, SyncModel};
use crate::text::{
    ends_with, has_suffix, join, joined, lowercase, precedes, same_text, to_lowercase,
};
use vstd::prelude::*;

verus! {

/// Whether a file is moved to another directory: it is a zip, and no link where these are passed
/// over.
pub fn moves_zip(file_name: &str, ignore_symlinks: bool, is_symlink: bool) -> (r: bool)
    ensures
        r == (has_suffix(file_name@, ".zip"@) && !(ignore_symlinks && is_symlink)),
{
    ends_with(file_name, ".zip") && !(ignore_symlinks && is_symlink)
}

/// What a mod file says of itself.
#[derive(Debug, Clone)]
pub struct ModMetadata {
    pub mod_id: ModID,
    pub version: Option<ModVersion>,
    /// The ids of the mods that it needs.
    pub dependencies: Vec<ModID>,
}

/// What a mod file says of itself, as characters.
#[verifier::ext_equal]
pub struct MetadataModel {
    pub mod_id: Seq<char>,
    pub version: Option<Seq<char>>,
    pub dependencies: Seq<Seq<char>>,
}

impl DeepView for ModMetadata {
    type V = MetadataModel;

    open spec fn deep_view(&self) -> MetadataModel {
        MetadataModel {
            mod_id: self.mod_id@,
            version: self.version.deep_view(),
            dependencies: self.dependencies.deep_view(),
        }
    }
}

impl MetadataModel {
    /// The id in lowercase: authors write it in whatever case they feel like.
    pub open spec fn key(self) -> Seq<char> {
        lowercase(self.mod_id)
    }

    /// Whether the file needs the mod with this id, however it spells it.
    pub open spec fn needs(self, mod_id: Seq<char>) -> bool {
        exists|i: int|
            0 <= i < self.dependencies.len() && lowercase(#[trigger] self.dependencies[i])
                == mod_id
    }

    /// The version, 0.0.0 where the file gives none.
    pub open spec fn installed_version(self) -> Seq<char> {
        match self.version {
            Some(version) => version,
            None => "0.0.0"@,
        }
    }
}

/// A file that is deleted, and the mod that it holds.
#[derive(Debug)]
pub struct Deletion {
    pub mod_id: ModID,
    pub version: ModVersion,
    pub file_name: ModFileName,
}

/// What a deletion says.
#[verifier::ext_equal]
pub struct DeletionModel {
    pub mod_id: Seq<char>,
    pub version: Seq<char>,
    pub file_name: Seq<char>,
}

impl DeepView for Deletion {
    type V = DeletionModel;

    open spec fn deep_view(&self) -> DeletionModel {
        DeletionModel {
            mod_id: self.mod_id@,
            version: self.version@,
            file_name: self.file_name@,
        }
    }
}

/// Whether `rule` can be asked about any two versions.
pub open spec fn comparable<C: Fn(&str, &str) -> Option<bool>>(rule: C) -> bool {
    forall|required: &str, installed: &str| #[trigger] call_requires(rule, (required, installed))
}

/// Whether `rule` may answer `r` when asked whether a version meets a condition. No answer means
/// that one of them cannot be parsed.
pub open spec fn matches_version<C: Fn(&str, &str) -> Option<bool>>(
    rule: C,
    required: Seq<char>,
    installed: Seq<char>,
    r: Option<bool>,
) -> bool {
    exists|x: &str, y: &str|
        x@ == required && y@ == installed && #[trigger] call_ensures(rule, (x, y), r)
}

/// Whether a version may be found to meet a condition, or not to: one that cannot be compared just
/// isn't a match.
pub open spec fn meets_may_be<C: Fn(&str, &str) -> Option<bool>>(
    rule: C,
    required: Seq<char>,
    installed: Seq<char>,
    meets: bool,
) -> bool {
    exists|answer: Option<bool>| #[trigger]
        matches_version(rule, required, installed, answer) && meets == (answer == Some(true))
}

/// Whether the verdict on a file may be `goes`. No version typed means that every copy of the mod
/// goes.
pub open spec fn verdict_may_be<C: Fn(&str, &str) -> Option<bool>>(
    rule: C,
    requested: Map<Seq<char>, Option<Seq<char>>>,
    metadata: MetadataModel,
    goes: bool,
) -> bool {
    if !requested.contains_key(metadata.key()) {
        !goes
    } else {
        match requested[metadata.key()] {
            None => goes,
            Some(required) => meets_may_be(rule, required, metadata.installed_version(), goes),
        }
    }
}

fn decide<C: Fn(&str, &str) -> Option<bool>>(
    mod_id: &str,
    installed_version: &str,
    metadata: &ModMetadata,
    requested: &ModMap<Option<String>>,
    compare_versions: &C,
) -> (r: bool)
    requires
        comparable(*compare_versions),
        mod_id@ == metadata.deep_view().key(),
        installed_version@ == metadata.deep_view().installed_version(),
    ensures
        verdict_may_be(*compare_versions, requested@, metadata.deep_view(), r),
{
    match requested.get(mod_id) {
        None => false,
        Some(target) => match target {
            None => {
                assert(requested@[mod_id@] is None);
                true
            },
            Some(required) => {
                let answer = compare_versions(required.as_str(), installed_version);
                assert(requested@[mod_id@] == Some(required@));
                assert(matches_version(
                    *compare_versions,
                    required@,
                    installed_version@,
                    answer,
                ));
                let goes = match answer {
                    Some(found) => found,
                    None => false,
                };
                assert(meets_may_be(*compare_versions, required@, installed_version@, goes));
                goes
            },
        },
    }
}

/// The deletion of a file.
pub open spec fn deletion_of(file_name: Seq<char>, metadata: MetadataModel) -> DeletionModel {
    DeletionModel {
        mod_id: metadata.key(),
        version: metadata.installed_version(),
        file_name,
    }
}

/// The deletions of the files that go, in their order.
pub open spec fn doomed(
    files: Seq<Seq<char>>,
    metadata: Map<Seq<char>, MetadataModel>,
    goes: Seq<bool>,
) -> Seq<DeletionModel>
    decreases files.len(),
{
    if files.len() == 0 {
        Seq::empty()
    } else {
        let before = doomed(files.drop_last(), metadata, goes.drop_last());
        if goes.last() {
            before.push(deletion_of(files.last(), metadata[files.last()]))
        } else {
            before
        }
    }
}

fn version_of(metadata: &ModMetadata) -> (r: ModVersion)
    ensures
        r@ == metadata.deep_view().installed_version(),
{
    match &metadata.version {
        Some(version) => version.clone(),
        None => "0.0.0".to_owned(),
    }
}

/// Whether the verdicts on the files may be these.
pub open spec fn verdicts_may_be<C: Fn(&str, &str) -> Option<bool>>(
    rule: C,
    requested: Map<Seq<char>, Option<Seq<char>>>,
    files: Seq<Seq<char>>,
    metadata: Map<Seq<char>, MetadataModel>,
    goes: Seq<bool>,
) -> bool {
    &&& goes.len() == files.len()
    &&& forall|i: int|
        0 <= i < files.len() ==> verdict_may_be(
            rule,
            requested,
            metadata[files[i]],
            #[trigger] goes[i],
        )
}

/// Decides which files of the mods that were asked for are deleted. `compare_versions` tells
/// whether a version meets a condition.
pub fn plan_deletions<C: Fn(&str, &str) -> Option<bool>>(
    metadata: &ModMap<ModMetadata>,
    requested: &ModMap<Option<String>>,
    compare_versions: &C,
) -> (r: Vec<Deletion>)
    requires
        comparable(*compare_versions),
    ensures
        exists|goes: Seq<bool>| #[trigger]
            verdicts_may_be(
                *compare_versions,
                requested@,
                in_order(metadata@.dom()),
                metadata@,
                goes,
            ) && r.deep_view() == doomed(in_order(metadata@.dom()), metadata@, goes),
        forall|k: int|
            0 <= k < r.len() ==> is_asked_away(
                *compare_versions,
                requested@,
                metadata@,
                #[trigger] r.deep_view()[k],
            ),
        forall|file_name: Seq<char>| #[trigger]
            metadata@.contains_key(file_name) && !(exists|k: int|
                0 <= k < r.len() && (#[trigger] r.deep_view()[k]).file_name == file_name)
                ==> may_stay(*compare_versions, requested@, metadata@[file_name]),
        forall|k: int, l: int|
            0 <= k < l < r.len() ==> precedes(
                (#[trigger] r.deep_view()[k]).file_name,
                (#[trigger] r.deep_view()[l]).file_name,
            ),
{
    let mut r: Vec<Deletion> = Vec::new();
    let ghost files = in_order(metadata@.dom());
    let ghost mut goes: Seq<bool> = Seq::empty();
    let n = metadata.len();
    assert(files.take(0) =~= Seq::empty());
    let mut i: usize = 0;
    while i < n
        invariant
            i <= n,
            n == files.len(),
            n == metadata@.dom().len(),
            files == in_order(metadata@.dom()),
            comparable(*compare_versions),
            goes.len() == i,
            forall|j: int|
                0 <= j < i ==> verdict_may_be(
                    *compare_versions,
                    requested@,
                    metadata@[files[j]],
                    #[trigger] goes[j],
                ),
            r.deep_view() == doomed(files.take(i as int), metadata@, goes),
        decreases n - i,
    {
        let file_name = metadata.name_at(i);
        let info = metadata.value_at(i);
        let mod_id = to_lowercase(info.mod_id.as_str());
        let version = version_of(info);
        let go = decide(mod_id.as_str(), version.as_str(), info, requested, compare_versions);
        let ghost before = goes;
        let ghost old_r = r.deep_view();
        proof {
            goes = before.push(go);
            assert(goes.drop_last() =~= before);
            assert(files.take(i + 1).drop_last() =~= files.take(i as int));
            assert(files.take(i + 1).last() == file_name@);
        }
        if go {
            let deletion = Deletion { mod_id, version, file_name: file_name.clone() };
            r.push(deletion);
            assert(r.deep_view() =~= old_r.push(deletion.deep_view()));
        }
        i = i + 1;
    }
    proof {
        assert(files.take(n as int) =~= files);
        assert(verdicts_may_be(*compare_versions, requested@, files, metadata@, goes));
        law_files_go_as_asked(*compare_versions, requested@, metadata@, goes);
    }
    r
}

/// Whether a deletion is of a file of the directory that the user asked to be deleted: it names the
/// file's mod in lowercase and the file's version, 0.0.0 where the file gives none, the mod was
/// typed, and where a version was typed behind it, the rule says that the file's version meets it.
pub open spec fn is_asked_away<C: Fn(&str, &str) -> Option<bool>>(
    rule: C,
    requested: Map<Seq<char>, Option<Seq<char>>>,
    metadata: Map<Seq<char>, MetadataModel>,
    deletion: DeletionModel,
) -> bool {
    let file = metadata[deletion.file_name];
    &&& metadata.contains_key(deletion.file_name)
    &&& deletion.mod_id == lowercase(file.mod_id)
    &&& file.version is Some ==> file.version == Some(deletion.version)
    &&& file.version is None ==> deletion.version == "0.0.0"@
    &&& requested.contains_key(deletion.mod_id)
    &&& requested[deletion.mod_id] matches Some(required) ==> exists|x: &str, y: &str| #[trigger]
        call_ensures(rule, (x, y), Some(true)) && x@ == required && y@ == deletion.version
}

/// Whether a file may stay: its mod was not typed, or a version was typed behind it and the rule
/// does not say that the file's version, 0.0.0 where it gives none, meets it.
pub open spec fn may_stay<C: Fn(&str, &str) -> Option<bool>>(
    rule: C,
    requested: Map<Seq<char>, Option<Seq<char>>>,
    file: MetadataModel,
) -> bool {
    ||| !requested.contains_key(lowercase(file.mod_id))
    ||| requested[lowercase(file.mod_id)] is Some && exists|
        x: &str,
        y: &str,
        answer: Option<bool>,
    |
        {
            &&& #[trigger] call_ensures(rule, (x, y), answer)
            &&& answer != Some(true)
            &&& x@ == requested[lowercase(file.mod_id)]->0
            &&& file.version is Some ==> file.version == Some(y@)
            &&& file.version is None ==> y@ == "0.0.0"@
        }
}

proof fn lemma_doomed_file(
    files: Seq<Seq<char>>,
    metadata: Map<Seq<char>, MetadataModel>,
    goes: Seq<bool>,
    k: int,
) -> (i: int)
    requires
        goes.len() == files.len(),
        0 <= k < doomed(files, metadata, goes).len(),
    ensures
        0 <= i < files.len(),
        goes[i],
        doomed(files, metadata, goes)[k] == deletion_of(files[i], metadata[files[i]]),
    decreases files.len(),
{
    let rest = files.drop_last();
    let rest_goes = goes.drop_last();
    if k < doomed(rest, metadata, rest_goes).len() {
        let i = lemma_doomed_file(rest, metadata, rest_goes, k);
        assert(files[i] == rest[i] && goes[i] == rest_goes[i]);
        i
    } else {
        files.len() - 1
    }
}

proof fn lemma_doomed(
    files: Seq<Seq<char>>,
    metadata: Map<Seq<char>, MetadataModel>,
    goes: Seq<bool>,
)
    requires
        increasing(files),
        goes.len() == files.len(),
    ensures
        ({
            let r = doomed(files, metadata, goes);
            &&& forall|i: int|
                0 <= i < files.len() && #[trigger] goes[i] ==> exists|k: int|
                    0 <= k < r.len() && (#[trigger] r[k]).file_name == files[i]
            &&& forall|k: int, l: int|
                0 <= k < l < r.len() ==> precedes(
                    (#[trigger] r[k]).file_name,
                    (#[trigger] r[l]).file_name,
                )
        }),
    decreases files.len(),
{
    if files.len() > 0 {
        let n = files.len() - 1;
        let rest = files.drop_last();
        let rest_goes = goes.drop_last();
        assert forall|i: int, j: int| 0 <= i < j < rest.len() implies precedes(rest[i], rest[j]) by {
            assert(precedes(files[i], files[j]));
        }
        lemma_doomed(rest, metadata, rest_goes);
        let before = doomed(rest, metadata, rest_goes);
        let r = doomed(files, metadata, goes);
        assert forall|i: int| 0 <= i < files.len() && #[trigger] goes[i] implies exists|k: int|
            0 <= k < r.len() && (#[trigger] r[k]).file_name == files[i] by {
            if i < n {
                assert(rest_goes[i]);
                let k = choose|k: int|
                    0 <= k < before.len() && (#[trigger] before[k]).file_name == rest[i];
                assert(r[k] == before[k]);
            } else {
                assert(r[before.len() as int].file_name == files[n]);
            }
        }
        assert forall|k: int, l: int| 0 <= k < l < r.len() implies precedes(
            (#[trigger] r[k]).file_name,
            (#[trigger] r[l]).file_name,
        ) by {
            assert(r[k] == before[k]);
            if l < before.len() {
                assert(r[l] == before[l]);
            } else {
                let i = lemma_doomed_file(rest, metadata, rest_goes, k);
                assert(precedes(files[i], files[n]));
            }
        }
    }
}

/// Just the files go that the user asked to be deleted: every file that goes was asked away, and
/// every file that stays may stay. They go in the order of their names, each once.
pub proof fn law_files_go_as_asked<C: Fn(&str, &str) -> Option<bool>>(
    rule: C,
    requested: Map<Seq<char>, Option<Seq<char>>>,
    metadata: Map<Seq<char>, MetadataModel>,
    goes: Seq<bool>,
)
    requires
        metadata.dom().finite(),
        verdicts_may_be(rule, requested, in_order(metadata.dom()), metadata, goes),
    ensures
        ({
            let r = doomed(in_order(metadata.dom()), metadata, goes);
            &&& forall|k: int|
                0 <= k < r.len() ==> is_asked_away(rule, requested, metadata, #[trigger] r[k])
            &&& forall|file_name: Seq<char>| #[trigger]
                metadata.contains_key(file_name) && !(exists|k: int|
                    0 <= k < r.len() && (#[trigger] r[k]).file_name == file_name) ==> may_stay(
                    rule,
                    requested,
                    metadata[file_name],
                )
            &&& forall|k: int, l: int|
                0 <= k < l < r.len() ==> precedes(
                    (#[trigger] r[k]).file_name,
                    (#[trigger] r[l]).file_name,
                )
        }),
{
    let files = in_order(metadata.dom());
    let r = doomed(files, metadata, goes);
    lemma_finite_in_order(metadata.dom());
    lemma_doomed(files, metadata, goes);
    assert forall|k: int| 0 <= k < r.len() implies is_asked_away(
        rule,
        requested,
        metadata,
        #[trigger] r[k],
    ) by {
        let i = lemma_doomed_file(files, metadata, goes, k);
        assert(files.to_set().contains(files[i]));
        assert(verdict_may_be(rule, requested, metadata[files[i]], goes[i]));
        if let Some(required) = requested[r[k].mod_id] {
            let answer = choose|answer: Option<bool>| #[trigger]
                matches_version(rule, required, r[k].version, answer) && goes[i] == (answer == Some(
                    true,
                ));
            let (x, y) = choose|x: &str, y: &str|
                x@ == required && y@ == r[k].version && #[trigger] call_ensures(
                    rule,
                    (x, y),
                    answer,
                );
            assert(call_ensures(rule, (x, y), Some(true)));
        }
    }
    assert forall|file_name: Seq<char>| #[trigger]
        metadata.contains_key(file_name) && !(exists|k: int|
            0 <= k < r.len() && (#[trigger] r[k]).file_name == file_name) implies may_stay(
        rule,
        requested,
        metadata[file_name],
    ) by {
        assert(files.to_set().contains(file_name));
        let i = choose|i: int| 0 <= i < files.len() && files[i] == file_name;
        let file = metadata[file_name];
        assert(verdict_may_be(rule, requested, metadata[files[i]], goes[i]));
        assert(!goes[i]);
        if requested.contains_key(file.key()) {
            let required = requested[file.key()]->0;
            let answer = choose|answer: Option<bool>| #[trigger]
                matches_version(rule, required, file.installed_version(), answer) && goes[i] == (
                answer == Some(true));
            let (x, y) = choose|x: &str, y: &str|
                x@ == required && y@ == file.installed_version() && #[trigger] call_ensures(
                    rule,
                    (x, y),
                    answer,
                );
            assert(call_ensures(rule, (x, y), answer) && answer != Some(true));
        }
    }
}

/// Whether a file is among those that were deleted.
pub open spec fn file_deleted(deleted: Seq<DeletionModel>, file_name: Seq<char>) -> bool {
    exists|i: int| 0 <= i < deleted.len() && (#[trigger] deleted[i]).file_name == file_name
}

/// Whether one of the files that were deleted held the mod.
pub open spec fn mod_deleted(deleted: Seq<DeletionModel>, mod_id: Seq<char>) -> bool {
    exists|i: int| 0 <= i < deleted.len() && (#[trigger] deleted[i]).mod_id == mod_id
}

/// Whether a file holds the mod and was not deleted.
pub open spec fn copy_left(
    metadata: Map<Seq<char>, MetadataModel>,
    deleted: Seq<DeletionModel>,
    mod_id: Seq<char>,
) -> bool {
    exists|file_name: Seq<char>| #[trigger]
        metadata.contains_key(file_name) && metadata[file_name].key() == mod_id && !file_deleted(
            deleted,
            file_name,
        )
}

/// The mods of which the last copy was deleted.
pub open spec fn gone(
    metadata: Map<Seq<char>, MetadataModel>,
    deleted: Seq<DeletionModel>,
) -> Set<Seq<char>> {
    Set::new(
        |mod_id: Seq<char>| mod_deleted(deleted, mod_id) && !copy_left(metadata, deleted, mod_id),
    )
}

fn is_file_deleted(deleted: &Vec<Deletion>, file_name: &str) -> (r: bool)
    ensures
        r == file_deleted(deleted.deep_view(), file_name@),
{
    let mut i: usize = 0;
    while i < deleted.len()
        invariant
            i <= deleted.len(),
            forall|j: int|
                0 <= j < i ==> (#[trigger] deleted.deep_view()[j]).file_name != file_name@,
        decreases deleted.len() - i,
    {
        assert(deleted.deep_view()[i as int] == deleted[i as int].deep_view());
        if same_text(deleted[i].file_name.as_str(), file_name) {
            return true;
        }
        i = i + 1;
    }
    false
}

fn is_mod_deleted(deleted: &Vec<Deletion>, mod_id: &str) -> (r: bool)
    ensures
        r == mod_deleted(deleted.deep_view(), mod_id@),
{
    let mut i: usize = 0;
    while i < deleted.len()
        invariant
            i <= deleted.len(),
            forall|j: int| 0 <= j < i ==> (#[trigger] deleted.deep_view()[j]).mod_id != mod_id@,
        decreases deleted.len() - i,
    {
        assert(deleted.deep_view()[i as int] == deleted[i as int].deep_view());
        if same_text(deleted[i].mod_id.as_str(), mod_id) {
            return true;
        }
        i = i + 1;
    }
    false
}

fn is_copy_left(metadata: &ModMap<ModMetadata>, deleted: &Vec<Deletion>, mod_id: &str) -> (r: bool)
    ensures
        r == copy_left(metadata@, deleted.deep_view(), mod_id@),
{
    let ghost files = in_order(metadata@.dom());
    let n = metadata.len();
    let mut i: usize = 0;
    while i < n
        invariant
            i <= n,
            n == files.len(),
            n == metadata@.dom().len(),
            files == in_order(metadata@.dom()),
            forall|j: int|
                0 <= j < i ==> metadata@[#[trigger] files[j]].key() != mod_id@ || file_deleted(
                    deleted.deep_view(),
                    files[j],
                ),
        decreases n - i,
    {
        let file_name = metadata.name_at(i);
        let info = metadata.value_at(i);
        if same_text(to_lowercase(info.mod_id.as_str()).as_str(), mod_id) && !is_file_deleted(
            deleted,
            file_name.as_str(),
        ) {
            assert(metadata@.contains_key(file_name@));
            return true;
        }
        i = i + 1;
    }
    proof {
        lemma_finite_in_order(metadata@.dom());
        assert forall|k: Seq<char>| #[trigger] metadata@.contains_key(k) implies metadata@[k].key()
            != mod_id@ || file_deleted(deleted.deep_view(), k) by {
            assert(files.to_set().contains(k));
            let j = choose|j: int| 0 <= j < files.len() && files[j] == k;
            assert(files[j] == k);
        }
    }
    false
}

/// Whether what the last sync found has to be written anew: only where something was deleted.
pub fn changes_sync(deleted: &Vec<Deletion>) -> (r: bool)
    ensures
        r == (deleted.len() > 0),
{
    deleted.len() > 0
}

/// The error where a directory cannot be walked.
pub fn unable_to_iterate(cause: &str) -> (r: RustiqueError)
    ensures
        r.deep_view() == ErrorModel::SimpleError("Unable to iterate on dir: "@ + cause@),
{
    let mut text = "Unable to iterate on dir: ".to_owned();
    text.append(cause);
    RustiqueError::SimpleError(text)
}

/// The error where a file cannot be moved.
pub fn unable_to_move(cause: &str) -> (r: RustiqueError)
    ensures
        r.deep_view() == ErrorModel::SimpleError("Unable to move file: "@ + cause@),
{
    let mut text = "Unable to move file: ".to_owned();
    text.append(cause);
    RustiqueError::SimpleError(text)
}

/// Takes the mods whose last copy was deleted out of what the last sync found. Deleting one
/// version out of two leaves the other one installed, and it still belongs in there.
pub fn forget_deleted(
    synced: &mut ModMap<ModSyncInfo>,
    metadata: &ModMap<ModMetadata>,
    deleted: &Vec<Deletion>,
)
    ensures
        final(synced)@ == old(synced)@.remove_keys(gone(metadata@, deleted.deep_view())),
        final(synced)@.submap_of(old(synced)@),
        forall|mod_id: Seq<char>| #[trigger]
            old(synced)@.contains_key(mod_id) ==> (final(synced)@.contains_key(mod_id) <==> (forall|
                k: int,
            |
                0 <= k < deleted.len() ==> (#[trigger] deleted.deep_view()[k]).mod_id != mod_id)
                || exists|file_name: Seq<char>| #[trigger]
                metadata@.contains_key(file_name) && lowercase(metadata@[file_name].mod_id)
                    == mod_id && forall|k: int|
                    0 <= k < deleted.len() ==> (#[trigger] deleted.deep_view()[k]).file_name
                        != file_name),
{
    let ghost all = deleted.deep_view();
    let ghost before = synced@;
    let mut i: usize = 0;
    assert(synced@ =~= before.remove_keys(gone_among(metadata@, all, 0)));
    while i < deleted.len()
        invariant
            i <= deleted.len(),
            all == deleted.deep_view(),
            synced@ == before.remove_keys(gone_among(metadata@, all, i as int)),
        decreases deleted.len() - i,
    {
        let mod_id = deleted[i].mod_id.as_str();
        assert(all[i as int].mod_id == mod_id@);
        let ghost old_gone = gone_among(metadata@, all, i as int);
        let ghost new_gone = gone_among(metadata@, all, i + 1);
        let left = is_copy_left(metadata, deleted, mod_id);
        proof {
            assert(new_gone =~= if left {
                old_gone
            } else {
                old_gone.insert(mod_id@)
            });
        }
        if !left {
            let _ = synced.remove(mod_id);
            assert(synced@ =~= before.remove_keys(new_gone));
        }
        i = i + 1;
    }
    proof {
        assert(gone_among(metadata@, all, all.len() as int) =~= gone(metadata@, all));
        assert forall|mod_id: Seq<char>| #[trigger]
            before.contains_key(mod_id) implies (synced@.contains_key(mod_id) <==> (forall|k: int|
            0 <= k < all.len() ==> (#[trigger] all[k]).mod_id != mod_id) || exists|
            file_name: Seq<char>,
        | #[trigger]
            metadata@.contains_key(file_name) && lowercase(metadata@[file_name].mod_id) == mod_id
                && forall|k: int|
                0 <= k < all.len() ==> (#[trigger] all[k]).file_name != file_name) by {
            law_forgotten_iff_no_file_is_left(before, metadata@, all, mod_id);
        }
    }
}

/// A mod is forgotten exactly where a file of it was deleted and no file of the directory holds it
/// that was not deleted.
pub proof fn law_forgotten_iff_no_file_is_left(
    synced: Map<Seq<char>, SyncModel>,
    metadata: Map<Seq<char>, MetadataModel>,
    deleted: Seq<DeletionModel>,
    mod_id: Seq<char>,
)
    requires
        synced.contains_key(mod_id),
    ensures
        synced.remove_keys(gone(metadata, deleted)).contains_key(mod_id) <==> (forall|k: int|
            0 <= k < deleted.len() ==> (#[trigger] deleted[k]).mod_id != mod_id) || exists|
            file_name: Seq<char>,
        | #[trigger]
            metadata.contains_key(file_name) && lowercase(metadata[file_name].mod_id) == mod_id
                && forall|k: int|
                0 <= k < deleted.len() ==> (#[trigger] deleted[k]).file_name != file_name,
{
    if copy_left(metadata, deleted, mod_id) {
        let file_name = choose|file_name: Seq<char>| #[trigger]
            metadata.contains_key(file_name) && metadata[file_name].key() == mod_id
                && !file_deleted(deleted, file_name);
        assert(metadata.contains_key(file_name));
        assert forall|k: int| 0 <= k < deleted.len() implies (#[trigger] deleted[k]).file_name
            != file_name by {}
    }
    if exists|file_name: Seq<char>| #[trigger]
        metadata.contains_key(file_name) && lowercase(metadata[file_name].mod_id) == mod_id
            && forall|k: int|
            0 <= k < deleted.len() ==> (#[trigger] deleted[k]).file_name != file_name {
        let file_name = choose|file_name: Seq<char>| #[trigger]
            metadata.contains_key(file_name) && lowercase(metadata[file_name].mod_id) == mod_id
                && forall|k: int|
                0 <= k < deleted.len() ==> (#[trigger] deleted[k]).file_name != file_name;
        assert(!file_deleted(deleted, file_name));
        assert(copy_left(metadata, deleted, mod_id));
    }
}

/// The mods among the first `n` deletions of which the last copy was deleted.
spec fn gone_among(
    metadata: Map<Seq<char>, MetadataModel>,
    deleted: Seq<DeletionModel>,
    n: int,
) -> Set<Seq<char>> {
    Set::new(
        |mod_id: Seq<char>|
            !copy_left(metadata, deleted, mod_id) && exists|i: int|
                0 <= i < n && (#[trigger] deleted[i]).mod_id == mod_id,
    )
}

/// Whether a file is away once the mods `going` are deleted on top of the files that were.
pub open spec fn away(
    metadata: Map<Seq<char>, MetadataModel>,
    deleted: Seq<DeletionModel>,
    going: Set<Seq<char>>,
    file_name: Seq<char>,
) -> bool {
    file_deleted(deleted, file_name) || going.contains(metadata[file_name].key())
}

/// Whether a file that goes away needs the mod.
pub open spec fn was_needed(
    metadata: Map<Seq<char>, MetadataModel>,
    deleted: Seq<DeletionModel>,
    going: Set<Seq<char>>,
    mod_id: Seq<char>,
) -> bool {
    exists|file_name: Seq<char>| #[trigger]
        metadata.contains_key(file_name) && away(metadata, deleted, going, file_name)
            && metadata[file_name].needs(mod_id)
}

/// Whether a link needs the mod, other than one to the mod itself. The links are the files that
/// only `everything` has.
pub open spec fn needed_by_link(
    metadata: Map<Seq<char>, MetadataModel>,
    everything: Map<Seq<char>, MetadataModel>,
    mod_id: Seq<char>,
) -> bool {
    exists|file_name: Seq<char>| #[trigger]
        everything.contains_key(file_name) && !metadata.contains_key(file_name)
            && everything[file_name].key() != mod_id && everything[file_name].needs(mod_id)
}

/// Whether a mod that is still installed, other than the mod itself, needs the mod. A mod that is
/// there as a link into a modpack is installed too.
pub open spec fn still_needed(
    metadata: Map<Seq<char>, MetadataModel>,
    everything: Map<Seq<char>, MetadataModel>,
    deleted: Seq<DeletionModel>,
    going: Set<Seq<char>>,
    mod_id: Seq<char>,
) -> bool {
    ||| needed_by_link(metadata, everything, mod_id)
    ||| needed_by_file(metadata, deleted, going, mod_id)
}

/// Whether a file that stays, other than one of the mod itself, needs the mod.
pub open spec fn needed_by_file(
    metadata: Map<Seq<char>, MetadataModel>,
    deleted: Seq<DeletionModel>,
    going: Set<Seq<char>>,
    mod_id: Seq<char>,
) -> bool {
    exists|file_name: Seq<char>| #[trigger]
        metadata.contains_key(file_name) && !away(metadata, deleted, going, file_name)
            && metadata[file_name].key() != mod_id && metadata[file_name].needs(mod_id)
}

/// Whether a mod is there, was needed by what goes away, and is needed by nothing else any more.
pub open spec fn orphaned(
    metadata: Map<Seq<char>, MetadataModel>,
    everything: Map<Seq<char>, MetadataModel>,
    deleted: Seq<DeletionModel>,
    going: Set<Seq<char>>,
    mod_id: Seq<char>,
) -> bool {
    &&& copy_left(metadata, deleted, mod_id)
    &&& was_needed(metadata, deleted, going, mod_id)
    &&& !still_needed(metadata, everything, deleted, going, mod_id)
}

/// Whether no orphan stays behind once the mods `going` are deleted as well.
pub open spec fn leaves_no_orphan(
    metadata: Map<Seq<char>, MetadataModel>,
    everything: Map<Seq<char>, MetadataModel>,
    deleted: Seq<DeletionModel>,
    going: Set<Seq<char>>,
) -> bool {
    forall|mod_id: Seq<char>| #[trigger]
        orphaned(metadata, everything, deleted, going, mod_id) ==> going.contains(mod_id)
}

/// Whether `going` are the fewest mods to delete so that no orphan stays behind.
pub open spec fn are_the_orphans(
    metadata: Map<Seq<char>, MetadataModel>,
    everything: Map<Seq<char>, MetadataModel>,
    deleted: Seq<DeletionModel>,
    going: Set<Seq<char>>,
) -> bool {
    &&& leaves_no_orphan(metadata, everything, deleted, going)
    &&& forall|others: Set<Seq<char>>| #[trigger]
        leaves_no_orphan(metadata, everything, deleted, others) ==> going.subset_of(others)
}

/// The deletions of those files that are left of the mods `going`.
pub open spec fn orphan_files(
    files: Seq<Seq<char>>,
    metadata: Map<Seq<char>, MetadataModel>,
    deleted: Seq<DeletionModel>,
    going: Set<Seq<char>>,
) -> Seq<DeletionModel>
    decreases files.len(),
{
    if files.len() == 0 {
        Seq::empty()
    } else {
        let before = orphan_files(files.drop_last(), metadata, deleted, going);
        let file_name = files.last();
        if going.contains(metadata[file_name].key()) && !file_deleted(deleted, file_name) {
            before.push(deletion_of(file_name, metadata[file_name]))
        } else {
            before
        }
    }
}

fn needs_mod(metadata: &ModMetadata, mod_id: &str) -> (r: bool)
    ensures
        r == metadata.deep_view().needs(mod_id@),
{
    let mut i: usize = 0;
    while i < metadata.dependencies.len()
        invariant
            i <= metadata.dependencies.len(),
            forall|j: int|
                0 <= j < i ==> lowercase(#[trigger] metadata.deep_view().dependencies[j])
                    != mod_id@,
        decreases metadata.dependencies.len() - i,
    {
        assert(metadata.deep_view().dependencies[i as int] == metadata.dependencies[i as int]@);
        if same_text(to_lowercase(metadata.dependencies[i].as_str()).as_str(), mod_id) {
            return true;
        }
        i = i + 1;
    }
    false
}

fn is_needed_by_link(
    metadata: &ModMap<ModMetadata>,
    everything: &ModMap<ModMetadata>,
    mod_id: &str,
) -> (r: bool)
    ensures
        r == needed_by_link(metadata@, everything@, mod_id@),
{
    let ghost files = in_order(everything@.dom());
    let n = everything.len();
    let mut i: usize = 0;
    while i < n
        invariant
            i <= n,
            n == files.len(),
            n == everything@.dom().len(),
            files == in_order(everything@.dom()),
            forall|j: int|
                0 <= j < i ==> metadata@.contains_key(#[trigger] files[j])
                    || everything@[files[j]].key() == mod_id@ || !everything@[files[j]].needs(
                    mod_id@,
                ),
        decreases n - i,
    {
        let file_name = everything.name_at(i);
        let info = everything.value_at(i);
        if !metadata.contains_key(file_name.as_str()) && !same_text(
            to_lowercase(info.mod_id.as_str()).as_str(),
            mod_id,
        ) && needs_mod(info, mod_id) {
            assert(everything@.contains_key(file_name@));
            return true;
        }
        i = i + 1;
    }
    proof {
        lemma_finite_in_order(everything@.dom());
        assert forall|f: Seq<char>| #[trigger]
            everything@.contains_key(f) implies metadata@.contains_key(f) || everything@[f].key()
            == mod_id@ || !everything@[f].needs(mod_id@) by {
            assert(files.to_set().contains(f));
            let j = choose|j: int| 0 <= j < files.len() && files[j] == f;
            assert(files[j] == f);
        }
    }
    false
}

fn is_orphaned(
    metadata: &ModMap<ModMetadata>,
    everything: &ModMap<ModMetadata>,
    deleted: &Vec<Deletion>,
    going: &ModMap<bool>,
    mod_id: &str,
) -> (r: bool)
    ensures
        r == orphaned(metadata@, everything@, deleted.deep_view(), going@.dom(), mod_id@),
{
    if !is_copy_left(metadata, deleted, mod_id) || is_needed_by_link(metadata, everything, mod_id) {
        return false;
    }
    let ghost gone_files = deleted.deep_view();
    let ghost files = in_order(metadata@.dom());
    let n = metadata.len();
    let mut was = false;
    let mut i: usize = 0;
    while i < n
        invariant
            i <= n,
            n == files.len(),
            n == metadata@.dom().len(),
            files == in_order(metadata@.dom()),
            gone_files == deleted.deep_view(),
            was ==> was_needed(metadata@, gone_files, going@.dom(), mod_id@),
            forall|j: int|
                0 <= j < i && metadata@[#[trigger] files[j]].needs(mod_id@) ==> (if away(
                    metadata@,
                    gone_files,
                    going@.dom(),
                    files[j],
                ) {
                    was
                } else {
                    metadata@[files[j]].key() == mod_id@
                }),
        decreases n - i,
    {
        let file_name = metadata.name_at(i);
        let info = metadata.value_at(i);
        if needs_mod(info, mod_id) {
            let id = to_lowercase(info.mod_id.as_str());
            assert(metadata@.contains_key(file_name@));
            if is_file_deleted(deleted, file_name.as_str()) || going.contains_key(id.as_str()) {
                was = true;
            } else if !same_text(id.as_str(), mod_id) {
                return false;
            }
        }
        i = i + 1;
    }
    proof {
        lemma_finite_in_order(metadata@.dom());
        assert forall|f: Seq<char>| #[trigger] metadata@.contains_key(f) && metadata@[f].needs(
            mod_id@,
        ) implies (if away(metadata@, gone_files, going@.dom(), f) {
            was
        } else {
            metadata@[f].key() == mod_id@
        }) by {
            assert(files.to_set().contains(f));
            let j = choose|j: int| 0 <= j < files.len() && files[j] == f;
            assert(metadata@[files[j]].needs(mod_id@));
        }
    }
    was
}

proof fn lemma_orphan_goes(
    metadata: Map<Seq<char>, MetadataModel>,
    everything: Map<Seq<char>, MetadataModel>,
    deleted: Seq<DeletionModel>,
    going: Set<Seq<char>>,
    others: Set<Seq<char>>,
    mod_id: Seq<char>,
)
    requires
        orphaned(metadata, everything, deleted, going, mod_id),
        going.subset_of(others),
        leaves_no_orphan(metadata, everything, deleted, others),
    ensures
        others.contains(mod_id),
{
    let f = choose|f: Seq<char>| #[trigger]
        metadata.contains_key(f) && away(metadata, deleted, going, f) && metadata[f].needs(mod_id);
    assert(away(metadata, deleted, others, f));
    if needed_by_file(metadata, deleted, others, mod_id) {
        let g = choose|g: Seq<char>| #[trigger]
            metadata.contains_key(g) && !away(metadata, deleted, others, g) && metadata[g].key()
                != mod_id && metadata[g].needs(mod_id);
        assert(!away(metadata, deleted, going, g));
        assert(needed_by_file(metadata, deleted, going, mod_id));
    }
    assert(orphaned(metadata, everything, deleted, others, mod_id));
}

fn find_orphans(
    metadata: &ModMap<ModMetadata>,
    everything: &ModMap<ModMetadata>,
    deleted: &Vec<Deletion>,
) -> (r: ModMap<bool>)
    ensures
        are_the_orphans(metadata@, everything@, deleted.deep_view(), r@.dom()),
{
    let mut going: ModMap<bool> = ModMap::new();
    let ghost gone_files = deleted.deep_view();
    let ghost files = in_order(metadata@.dom());
    let ghost keys = files.map_values(|f: Seq<char>| metadata@[f].key());
    let n = metadata.len();
    proof {
        vstd::seq_lib::seq_to_set_is_finite(keys);
    }
    let mut i: usize = 0;
    while i < n
        invariant
            i <= n,
            n == files.len(),
            n == metadata@.dom().len(),
            files == in_order(metadata@.dom()),
            gone_files == deleted.deep_view(),
            keys == files.map_values(|f: Seq<char>| metadata@[f].key()),
            keys.to_set().finite(),
            going@.dom().finite(),
            going@.dom().subset_of(keys.to_set()),
            forall|others: Set<Seq<char>>| #[trigger]
                leaves_no_orphan(metadata@, everything@, gone_files, others)
                    ==> going@.dom().subset_of(others),
            forall|j: int|
                0 <= j < i ==> going@.contains_key(#[trigger] keys[j]) || !orphaned(
                    metadata@,
                    everything@,
                    gone_files,
                    going@.dom(),
                    keys[j],
                ),
        decreases keys.to_set().len() - going@.dom().len(), n - i,
    {
        let info = metadata.value_at(i);
        let id = to_lowercase(info.mod_id.as_str());
        assert(keys[i as int] == id@);
        assert(keys.to_set().contains(id@));
        if !going.contains_key(id.as_str()) && is_orphaned(
            metadata,
            everything,
            deleted,
            &going,
            id.as_str(),
        ) {
            let ghost before = going@.dom();
            proof {
                assert forall|others: Set<Seq<char>>| #[trigger]
                    leaves_no_orphan(
                    metadata@,
                    everything@,
                    gone_files,
                    others,
                ) implies before.insert(id@).subset_of(others) by {
                    lemma_orphan_goes(metadata@, everything@, gone_files, before, others, id@);
                }
            }
            let ghost added = id@;
            going.insert(id, true);
            proof {
                assert(going@.dom() =~= before.insert(added));
                vstd::set_lib::lemma_len_subset(going@.dom(), keys.to_set());
            }
            i = 0;
        } else {
            i = i + 1;
        }
    }
    proof {
        lemma_finite_in_order(metadata@.dom());
        assert forall|mod_id: Seq<char>| #[trigger]
            orphaned(
            metadata@,
            everything@,
            gone_files,
            going@.dom(),
            mod_id,
        ) implies going@.dom().contains(mod_id) by {
            let f = choose|f: Seq<char>| #[trigger]
                metadata@.contains_key(f) && metadata@[f].key() == mod_id && !file_deleted(
                    gone_files,
                    f,
                );
            assert(files.to_set().contains(f));
            let j = choose|j: int| 0 <= j < files.len() && files[j] == f;
            assert(keys[j] == mod_id);
        }
    }
    going
}

/// Decides which files go along with those that were deleted: where the user asks for it, what the
/// deleted mods needed, as long as nothing else still needs it. `metadata` is that of the real
/// files, which alone can go, and `everything` has the links into modpacks as well.
pub fn plan_orphans(
    with_deps: bool,
    metadata: &ModMap<ModMetadata>,
    everything: &ModMap<ModMetadata>,
    deleted: &Vec<Deletion>,
) -> (r: Vec<Deletion>)
    ensures
        !with_deps ==> r.len() == 0,
        with_deps ==> exists|going: Set<Seq<char>>| #[trigger]
            are_the_orphans(metadata@, everything@, deleted.deep_view(), going) && r.deep_view()
                == orphan_files(
                in_order(metadata@.dom()),
                metadata@,
                deleted.deep_view(),
                going,
            ),
        forall|k: int|
            0 <= k < r.len() ==> is_left_over(
                metadata@,
                deleted.deep_view(),
                #[trigger] r.deep_view()[k],
            ),
        with_deps ==> exists|going: Set<Seq<char>>|
            are_the_fewest(metadata@, everything@, deleted.deep_view(), going)
                && #[trigger] goes_with(metadata@, deleted.deep_view(), going, r.deep_view()),
{
    let mut r: Vec<Deletion> = Vec::new();
    if !with_deps {
        return r;
    }
    let going = find_orphans(metadata, everything, deleted);
    let ghost gone_files = deleted.deep_view();
    let ghost files = in_order(metadata@.dom());
    let n = metadata.len();
    proof {
        assert(files.take(0) =~= Seq::empty());
        assert(r.deep_view() =~= Seq::empty());
    }
    let mut i: usize = 0;
    while i < n
        invariant
            i <= n,
            n == files.len(),
            n == metadata@.dom().len(),
            files == in_order(metadata@.dom()),
            gone_files == deleted.deep_view(),
            r.deep_view() == orphan_files(
                files.take(i as int),
                metadata@,
                gone_files,
                going@.dom(),
            ),
        decreases n - i,
    {
        let file_name = metadata.name_at(i);
        let info = metadata.value_at(i);
        let mod_id = to_lowercase(info.mod_id.as_str());
        let ghost before = r.deep_view();
        proof {
            assert(files.take(i + 1).drop_last() =~= files.take(i as int));
            assert(files.take(i + 1).last() == file_name@);
        }
        if going.contains_key(mod_id.as_str()) && !is_file_deleted(deleted, file_name.as_str()) {
            let deletion = Deletion {
                mod_id,
                version: version_of(info),
                file_name: file_name.clone(),
            };
            r.push(deletion);
            assert(r.deep_view() =~= before.push(deletion.deep_view()));
        }
        i = i + 1;
    }
    assert(files.take(n as int) =~= files);
    proof {
        lemma_finite_in_order(metadata@.dom());
        law_files_of_orphans_go(metadata@, gone_files, going@.dom());
        law_orphans_by_their_files(metadata@, everything@, gone_files, going@.dom());
        assert(are_the_fewest(metadata@, everything@, gone_files, going@.dom()));
    }
    r
}

/// Whether a deletion is of a file of the directory that was not deleted, and says whose it is.
pub open spec fn is_left_over(
    metadata: Map<Seq<char>, MetadataModel>,
    deleted: Seq<DeletionModel>,
    deletion: DeletionModel,
) -> bool {
    let file = metadata[deletion.file_name];
    &&& metadata.contains_key(deletion.file_name)
    &&& forall|k: int|
        0 <= k < deleted.len() ==> (#[trigger] deleted[k]).file_name != deletion.file_name
    &&& deletion.mod_id == lowercase(file.mod_id)
    &&& file.version is Some ==> file.version == Some(deletion.version)
    &&& file.version is None ==> deletion.version == "0.0.0"@
}

/// Whether just those files go that hold one of the mods `going` and were not deleted, in the order
/// of their names.
pub open spec fn goes_with(
    metadata: Map<Seq<char>, MetadataModel>,
    deleted: Seq<DeletionModel>,
    going: Set<Seq<char>>,
    r: Seq<DeletionModel>,
) -> bool {
    &&& forall|k: int|
        0 <= k < r.len() ==> is_left_over(metadata, deleted, #[trigger] r[k]) && going.contains(
            r[k].mod_id,
        )
    &&& forall|file_name: Seq<char>| #[trigger]
        metadata.contains_key(file_name) && going.contains(lowercase(metadata[file_name].mod_id))
            && (forall|k: int|
            0 <= k < deleted.len() ==> (#[trigger] deleted[k]).file_name != file_name)
            ==> exists|k: int| 0 <= k < r.len() && (#[trigger] r[k]).file_name == file_name
    &&& forall|k: int, l: int|
        0 <= k < l < r.len() ==> precedes(
            (#[trigger] r[k]).file_name,
            (#[trigger] r[l]).file_name,
        )
}

/// Whether a mod loses its last need, in the words of the files. A file of it is left. A file that is
/// deleted, or holds a mod that goes, declares it as a dependency. No file of another mod does that
/// is there as a link, or is left and holds a mod that does not go.
pub open spec fn loses_its_need(
    metadata: Map<Seq<char>, MetadataModel>,
    everything: Map<Seq<char>, MetadataModel>,
    deleted: Seq<DeletionModel>,
    going: Set<Seq<char>>,
    mod_id: Seq<char>,
) -> bool {
    &&& exists|f: Seq<char>| #[trigger]
        metadata.contains_key(f) && lowercase(metadata[f].mod_id) == mod_id && forall|k: int|
            0 <= k < deleted.len() ==> (#[trigger] deleted[k]).file_name != f
    &&& exists|f: Seq<char>, i: int|
        {
            &&& metadata.contains_key(f)
            &&& 0 <= i < metadata[f].dependencies.len()
            &&& lowercase(#[trigger] metadata[f].dependencies[i]) == mod_id
            &&& going.contains(lowercase(metadata[f].mod_id)) || exists|k: int|
                0 <= k < deleted.len() && (#[trigger] deleted[k]).file_name == f
        }
    &&& forall|f: Seq<char>, i: int|
        everything.contains_key(f) && !metadata.contains_key(f) && lowercase(everything[f].mod_id)
            != mod_id && 0 <= i < everything[f].dependencies.len() ==> lowercase(
            #[trigger] everything[f].dependencies[i],
        ) != mod_id
    &&& forall|f: Seq<char>, i: int|
        metadata.contains_key(f) && lowercase(metadata[f].mod_id) != mod_id && 0 <= i
            < metadata[f].dependencies.len() && !going.contains(lowercase(metadata[f].mod_id)) && (
        forall|k: int| 0 <= k < deleted.len() ==> (#[trigger] deleted[k]).file_name != f)
            ==> lowercase(#[trigger] metadata[f].dependencies[i]) != mod_id
}

/// Whether `going` are the mods that lose their last need, and the fewest that do so together.
pub open spec fn are_the_fewest(
    metadata: Map<Seq<char>, MetadataModel>,
    everything: Map<Seq<char>, MetadataModel>,
    deleted: Seq<DeletionModel>,
    going: Set<Seq<char>>,
) -> bool {
    &&& forall|mod_id: Seq<char>| #[trigger]
        going.contains(mod_id) <==> loses_its_need(metadata, everything, deleted, going, mod_id)
    &&& forall|others: Set<Seq<char>>|
        (forall|mod_id: Seq<char>| #[trigger]
            loses_its_need(metadata, everything, deleted, others, mod_id) ==> others.contains(
                mod_id,
            )) ==> #[trigger] going.subset_of(others)
}

proof fn lemma_orphaned_by_files(
    metadata: Map<Seq<char>, MetadataModel>,
    everything: Map<Seq<char>, MetadataModel>,
    deleted: Seq<DeletionModel>,
    going: Set<Seq<char>>,
    mod_id: Seq<char>,
)
    ensures
        orphaned(metadata, everything, deleted, going, mod_id) <==> loses_its_need(
            metadata,
            everything,
            deleted,
            going,
            mod_id,
        ),
{
    if orphaned(metadata, everything, deleted, going, mod_id) {
        let f = choose|f: Seq<char>| #[trigger]
            metadata.contains_key(f) && metadata[f].key() == mod_id && !file_deleted(deleted, f);
        assert(metadata.contains_key(f) && lowercase(metadata[f].mod_id) == mod_id);
        let g = choose|g: Seq<char>| #[trigger]
            metadata.contains_key(g) && away(metadata, deleted, going, g) && metadata[g].needs(
                mod_id,
            );
        let i = choose|i: int|
            0 <= i < metadata[g].dependencies.len() && lowercase(
                #[trigger] metadata[g].dependencies[i],
            ) == mod_id;
        assert(lowercase(metadata[g].dependencies[i]) == mod_id);
        assert forall|f: Seq<char>, i: int|
            everything.contains_key(f) && !metadata.contains_key(f) && lowercase(
                everything[f].mod_id,
            ) != mod_id && 0 <= i < everything[f].dependencies.len() implies lowercase(
            #[trigger] everything[f].dependencies[i],
        ) != mod_id by {
            if lowercase(everything[f].dependencies[i]) == mod_id {
                assert(everything[f].needs(mod_id));
                assert(needed_by_link(metadata, everything, mod_id));
            }
        }
        assert forall|f: Seq<char>, i: int|
            metadata.contains_key(f) && lowercase(metadata[f].mod_id) != mod_id && 0 <= i
                < metadata[f].dependencies.len() && !going.contains(lowercase(metadata[f].mod_id))
                && (forall|k: int|
                0 <= k < deleted.len() ==> (#[trigger] deleted[k]).file_name != f) implies lowercase(
            #[trigger] metadata[f].dependencies[i],
        ) != mod_id by {
            if lowercase(metadata[f].dependencies[i]) == mod_id {
                assert(metadata[f].needs(mod_id));
                assert(!away(metadata, deleted, going, f));
                assert(needed_by_file(metadata, deleted, going, mod_id));
            }
        }
    }
    if loses_its_need(metadata, everything, deleted, going, mod_id) {
        let f = choose|f: Seq<char>| #[trigger]
            metadata.contains_key(f) && lowercase(metadata[f].mod_id) == mod_id && forall|k: int|
                0 <= k < deleted.len() ==> (#[trigger] deleted[k]).file_name != f;
        assert(!file_deleted(deleted, f));
        assert(copy_left(metadata, deleted, mod_id));
        let (g, i) = choose|f: Seq<char>, i: int|
            {
                &&& metadata.contains_key(f)
                &&& 0 <= i < metadata[f].dependencies.len()
                &&& lowercase(#[trigger] metadata[f].dependencies[i]) == mod_id
                &&& going.contains(lowercase(metadata[f].mod_id)) || exists|k: int|
                    0 <= k < deleted.len() && (#[trigger] deleted[k]).file_name == f
            };
        assert(metadata[g].needs(mod_id));
        assert(away(metadata, deleted, going, g));
        assert(was_needed(metadata, deleted, going, mod_id));
        if needed_by_link(metadata, everything, mod_id) {
            let h = choose|h: Seq<char>| #[trigger]
                everything.contains_key(h) && !metadata.contains_key(h) && everything[h].key()
                    != mod_id && everything[h].needs(mod_id);
            let j = choose|j: int|
                0 <= j < everything[h].dependencies.len() && lowercase(
                    #[trigger] everything[h].dependencies[j],
                ) == mod_id;
            assert(lowercase(everything[h].dependencies[j]) != mod_id);
        }
        if needed_by_file(metadata, deleted, going, mod_id) {
            let h = choose|h: Seq<char>| #[trigger]
                metadata.contains_key(h) && !away(metadata, deleted, going, h) && metadata[h].key()
                    != mod_id && metadata[h].needs(mod_id);
            let j = choose|j: int|
                0 <= j < metadata[h].dependencies.len() && lowercase(
                    #[trigger] metadata[h].dependencies[j],
                ) == mod_id;
            assert forall|k: int| 0 <= k < deleted.len() implies (#[trigger] deleted[k]).file_name
                != h by {}
            assert(lowercase(metadata[h].dependencies[j]) != mod_id);
        }
    }
}

/// What goes along are the mods that lose their last need by what is deleted and goes along, and
/// the fewest that do.
pub proof fn law_orphans_by_their_files(
    metadata: Map<Seq<char>, MetadataModel>,
    everything: Map<Seq<char>, MetadataModel>,
    deleted: Seq<DeletionModel>,
    going: Set<Seq<char>>,
)
    requires
        are_the_orphans(metadata, everything, deleted, going),
    ensures
        are_the_fewest(metadata, everything, deleted, going),
{
    assert forall|mod_id: Seq<char>| #[trigger]
        going.contains(mod_id) <==> loses_its_need(
            metadata,
            everything,
            deleted,
            going,
            mod_id,
        ) by {
        lemma_orphaned_by_files(metadata, everything, deleted, going, mod_id);
        if going.contains(mod_id) {
            lemma_orphan_has_reason(metadata, everything, deleted, going, mod_id);
        } else {
            assert(!orphaned(metadata, everything, deleted, going, mod_id));
        }
    }
    assert forall|others: Set<Seq<char>>|
        (forall|mod_id: Seq<char>| #[trigger]
            loses_its_need(metadata, everything, deleted, others, mod_id) ==> others.contains(
                mod_id,
            )) implies #[trigger] going.subset_of(others) by {
        assert forall|mod_id: Seq<char>| #[trigger]
            orphaned(metadata, everything, deleted, others, mod_id) implies others.contains(
            mod_id,
        ) by {
            lemma_orphaned_by_files(metadata, everything, deleted, others, mod_id);
        }
        assert(leaves_no_orphan(metadata, everything, deleted, others));
    }
}

proof fn lemma_orphan_file(
    files: Seq<Seq<char>>,
    metadata: Map<Seq<char>, MetadataModel>,
    deleted: Seq<DeletionModel>,
    going: Set<Seq<char>>,
    k: int,
) -> (i: int)
    requires
        0 <= k < orphan_files(files, metadata, deleted, going).len(),
    ensures
        0 <= i < files.len(),
        going.contains(metadata[files[i]].key()),
        !file_deleted(deleted, files[i]),
        orphan_files(files, metadata, deleted, going)[k] == deletion_of(
            files[i],
            metadata[files[i]],
        ),
    decreases files.len(),
{
    let rest = files.drop_last();
    if k < orphan_files(rest, metadata, deleted, going).len() {
        let i = lemma_orphan_file(rest, metadata, deleted, going, k);
        assert(files[i] == rest[i]);
        i
    } else {
        files.len() - 1
    }
}

proof fn lemma_orphan_files(
    files: Seq<Seq<char>>,
    metadata: Map<Seq<char>, MetadataModel>,
    deleted: Seq<DeletionModel>,
    going: Set<Seq<char>>,
)
    requires
        increasing(files),
    ensures
        ({
            let r = orphan_files(files, metadata, deleted, going);
            &&& forall|i: int|
                0 <= i < files.len() && going.contains(metadata[#[trigger] files[i]].key())
                    && !file_deleted(deleted, files[i]) ==> exists|k: int|
                    0 <= k < r.len() && (#[trigger] r[k]).file_name == files[i]
            &&& forall|k: int, l: int|
                0 <= k < l < r.len() ==> precedes(
                    (#[trigger] r[k]).file_name,
                    (#[trigger] r[l]).file_name,
                )
        }),
    decreases files.len(),
{
    if files.len() > 0 {
        let n = files.len() - 1;
        let rest = files.drop_last();
        assert forall|i: int, j: int| 0 <= i < j < rest.len() implies precedes(rest[i], rest[j]) by {
            assert(precedes(files[i], files[j]));
        }
        lemma_orphan_files(rest, metadata, deleted, going);
        let before = orphan_files(rest, metadata, deleted, going);
        let r = orphan_files(files, metadata, deleted, going);
        assert forall|i: int|
            0 <= i < files.len() && going.contains(metadata[#[trigger] files[i]].key())
                && !file_deleted(deleted, files[i]) implies exists|k: int|
            0 <= k < r.len() && (#[trigger] r[k]).file_name == files[i] by {
            if i < n {
                assert(rest[i] == files[i]);
                let k = choose|k: int|
                    0 <= k < before.len() && (#[trigger] before[k]).file_name == rest[i];
                assert(r[k] == before[k]);
            } else {
                assert(r[before.len() as int].file_name == files[n]);
            }
        }
        assert forall|k: int, l: int| 0 <= k < l < r.len() implies precedes(
            (#[trigger] r[k]).file_name,
            (#[trigger] r[l]).file_name,
        ) by {
            assert(r[k] == before[k]);
            if l < before.len() {
                assert(r[l] == before[l]);
            } else {
                let i = lemma_orphan_file(rest, metadata, deleted, going, k);
                assert(precedes(files[i], files[n]));
            }
        }
    }
}

/// Of the mods that go along every file goes that was not deleted before, and no file of another
/// mod does.
pub proof fn law_files_of_orphans_go(
    metadata: Map<Seq<char>, MetadataModel>,
    deleted: Seq<DeletionModel>,
    going: Set<Seq<char>>,
)
    requires
        metadata.dom().finite(),
    ensures
        goes_with(
            metadata,
            deleted,
            going,
            orphan_files(in_order(metadata.dom()), metadata, deleted, going),
        ),
{
    let files = in_order(metadata.dom());
    let r = orphan_files(files, metadata, deleted, going);
    lemma_finite_in_order(metadata.dom());
    lemma_orphan_files(files, metadata, deleted, going);
    assert forall|k: int| 0 <= k < r.len() implies is_left_over(metadata, deleted, #[trigger] r[k])
        && going.contains(r[k].mod_id) by {
        let i = lemma_orphan_file(files, metadata, deleted, going, k);
        assert(files.to_set().contains(files[i]));
        assert forall|l: int| 0 <= l < deleted.len() implies (#[trigger] deleted[l]).file_name
            != r[k].file_name by {}
    }
    assert forall|file_name: Seq<char>| #[trigger]
        metadata.contains_key(file_name) && going.contains(lowercase(metadata[file_name].mod_id))
            && (forall|k: int|
            0 <= k < deleted.len() ==> (#[trigger] deleted[k]).file_name
                != file_name) implies exists|k: int|
        0 <= k < r.len() && (#[trigger] r[k]).file_name == file_name by {
        assert(files.to_set().contains(file_name));
        let i = choose|i: int| 0 <= i < files.len() && files[i] == file_name;
        assert(!file_deleted(deleted, files[i]));
        assert(going.contains(metadata[files[i]].key()));
    }
}

/// "`<mod>@<version>:<file>`".
pub open spec fn deleted_name(deletion: DeletionModel) -> Seq<char> {
    deletion.mod_id + "@"@ + deletion.version + ":"@ + deletion.file_name
}

/// The files that were deleted, for the user to read.
pub fn deleted_list(deleted: &Vec<Deletion>) -> (r: String)
    ensures
        r@ == bracketed(deleted.deep_view().map_values(|d: DeletionModel| deleted_name(d))),
        r@ == joined(
            deleted.deep_view().map_values(
                |d: DeletionModel| d.mod_id + "@"@ + d.version + ":"@ + d.file_name,
            ),
            "], ["@,
        ),
{
    let mut names: Vec<String> = Vec::new();
    let mut i: usize = 0;
    while i < deleted.len()
        invariant
            i <= deleted.len(),
            names.len() == i,
            forall|j: int|
                0 <= j < i ==> #[trigger] names[j]@ == deleted_name(deleted.deep_view()[j]),
        decreases deleted.len() - i,
    {
        let mut name = deleted[i].mod_id.clone();
        name.append("@");
        name.append(deleted[i].version.as_str());
        name.append(":");
        name.append(deleted[i].file_name.as_str());
        assert(deleted.deep_view()[i as int] == deleted[i as int].deep_view());
        names.push(name);
        i = i + 1;
    }
    assert(names.deep_view() =~= deleted.deep_view().map_values(
        |d: DeletionModel| deleted_name(d),
    ));
    assert(names.deep_view() =~= deleted.deep_view().map_values(
        |d: DeletionModel| d.mod_id + "@"@ + d.version + ":"@ + d.file_name,
    ));
    join(&names, "], [")
}

/// The row that shows what was deleted.
pub fn show_deleted(deleted_mods: &str) -> (r: (CellData, CellData))
    ensures
        r.deep_view() == (
            CellModel {
                text: "Successfully deleted:"@,
                color: Some(Color::Green),
                attributes: Seq::empty(),
                alignment: None,
            },
            CellModel {
                text: "["@ + deleted_mods@ + "]"@,
                color: Some(Color::Magenta),
                attributes: Seq::empty(),
                alignment: Some(CellAlignment::Right),
            },
        ),
{
    let mut list = "[".to_owned();
    list.append(deleted_mods);
    list.append("]");
    (
        CellData::new("Successfully deleted:".to_owned(), Some(Color::Green), Vec::new(), None),
        CellData::new(list, Some(Color::Magenta), Vec::new(), Some(CellAlignment::Right)),
    )
}

/// The mods that were asked for and of which nothing was deleted, in the order of their ids.
pub open spec fn not_deleted(
    requested: Map<Seq<char>, Option<Seq<char>>>,
    deleted: Seq<DeletionModel>,
) -> Seq<Seq<char>> {
    filtered(in_order(requested.dom()), |id: Seq<char>| !mod_deleted(deleted, id))
}

/// What there is to say of the mods that were asked for and of which nothing was deleted, if there
/// are any: either the mod isn't installed, or the version isn't the one sitting there.
pub fn not_deleted_notice(requested: &ModMap<Option<String>>, deleted: &Vec<Deletion>) -> (r: Option<
    Notice,
>)
    ensures
        r.deep_view() == (if not_deleted(requested@, deleted.deep_view()).len() == 0 {
            None
        } else {
            Some(
                NoticeModel {
                    text: "Nothing deleted for: ["@ + bracketed(
                        not_deleted(requested@, deleted.deep_view()),
                    ) + "]. Check the modid and version with [Rustique list]"@,
                    color: Color::Yellow,
                },
            )
        }),
        r is Some <==> exists|mod_id: Seq<char>| #[trigger]
            requested@.contains_key(mod_id) && forall|k: int|
                0 <= k < deleted.len() ==> (#[trigger] deleted.deep_view()[k]).mod_id != mod_id,
{
    let ghost ids = in_order(requested@.dom());
    let ghost test = |id: Seq<char>| !mod_deleted(deleted.deep_view(), id);
    let mut left: Vec<String> = Vec::new();
    let n = requested.len();
    proof {
        assert(ids.take(0) =~= Seq::empty());
        assert(left.deep_view() =~= Seq::empty());
    }
    let mut i: usize = 0;
    while i < n
        invariant
            i <= n,
            n == ids.len(),
            n == requested@.dom().len(),
            ids == in_order(requested@.dom()),
            test == (|id: Seq<char>| !mod_deleted(deleted.deep_view(), id)),
            left.deep_view() == filtered(ids.take(i as int), test),
        decreases n - i,
    {
        let id = requested.name_at(i);
        let ghost before = left.deep_view();
        proof {
            assert(ids.take(i + 1).drop_last() =~= ids.take(i as int));
            assert(ids.take(i + 1).last() == id@);
        }
        if !is_mod_deleted(deleted, id.as_str()) {
            left.push(id.clone());
            assert(left.deep_view() =~= before.push(id@));
        }
        i = i + 1;
    }
    assert(ids.take(n as int) =~= ids);
    proof {
        let all = deleted.deep_view();
        law_told_iff_nothing_deleted(requested@, all);
        assert(left.deep_view() == not_deleted(requested@, all));
        if left.len() > 0 {
            let mod_id = left.deep_view()[0];
            assert(left.deep_view().contains(mod_id));
            assert(requested@.contains_key(mod_id));
        }
        assert forall|mod_id: Seq<char>| #[trigger]
            requested@.contains_key(mod_id) && (forall|k: int|
                0 <= k < all.len() ==> (#[trigger] all[k]).mod_id != mod_id) implies left.len()
            > 0 by {
            assert(left.deep_view().contains(mod_id));
        }
    }
    if left.len() == 0 {
        return None;
    }
    let mut text = "Nothing deleted for: [".to_owned();
    text.append(join(&left, "], [").as_str());
    text.append("]. Check the modid and version with [Rustique list]");
    Some(Notice { text, color: Color::Yellow })
}

/// Nothing is deleted that was not asked for: every file that goes is a file of the directory, and
/// holds a mod whose id was typed.
pub proof fn law_only_requested_deleted<C: Fn(&str, &str) -> Option<bool>>(
    rule: C,
    requested: Map<Seq<char>, Option<Seq<char>>>,
    files: Seq<Seq<char>>,
    metadata: Map<Seq<char>, MetadataModel>,
    goes: Seq<bool>,
    i: int,
)
    requires
        verdicts_may_be(rule, requested, files, metadata, goes),
        0 <= i < doomed(files, metadata, goes).len(),
    ensures
        requested.contains_key(doomed(files, metadata, goes)[i].mod_id),
        files.contains(doomed(files, metadata, goes)[i].file_name),
        metadata[doomed(files, metadata, goes)[i].file_name].key() == doomed(
            files,
            metadata,
            goes,
        )[i].mod_id,
    decreases files.len(),
{
    let rest = files.drop_last();
    let rest_goes = goes.drop_last();
    let before = doomed(rest, metadata, rest_goes);
    let after = doomed(files, metadata, goes);
    assert(files[files.len() - 1] == files.last());
    assert(verdict_may_be(rule, requested, metadata[files.last()], goes[files.len() - 1]));
    if i < before.len() {
        assert(verdicts_may_be(rule, requested, rest, metadata, rest_goes)) by {
            assert forall|j: int| 0 <= j < rest.len() implies verdict_may_be(
                rule,
                requested,
                metadata[rest[j]],
                #[trigger] rest_goes[j],
            ) by {
                assert(rest_goes[j] == goes[j]);
            }
        }
        law_only_requested_deleted(rule, requested, rest, metadata, rest_goes, i);
        assert(after[i] == before[i]);
        let j = choose|j: int| 0 <= j < rest.len() && rest[j] == before[i].file_name;
        assert(files[j] == after[i].file_name);
    }
}

/// A mod that was typed without a version goes with every copy.
pub proof fn law_every_copy_deleted<C: Fn(&str, &str) -> Option<bool>>(
    rule: C,
    requested: Map<Seq<char>, Option<Seq<char>>>,
    files: Seq<Seq<char>>,
    metadata: Map<Seq<char>, MetadataModel>,
    goes: Seq<bool>,
    i: int,
)
    requires
        verdicts_may_be(rule, requested, files, metadata, goes),
        0 <= i < files.len(),
        requested.contains_key(metadata[files[i]].key()),
        requested[metadata[files[i]].key()] is None,
    ensures
        doomed(files, metadata, goes).contains(deletion_of(files[i], metadata[files[i]])),
    decreases files.len(),
{
    let rest = files.drop_last();
    let rest_goes = goes.drop_last();
    let before = doomed(rest, metadata, rest_goes);
    let after = doomed(files, metadata, goes);
    let wanted = deletion_of(files[i], metadata[files[i]]);
    assert(verdict_may_be(rule, requested, metadata[files[i]], goes[i]));
    if i < rest.len() {
        assert(verdicts_may_be(rule, requested, rest, metadata, rest_goes)) by {
            assert forall|j: int| 0 <= j < rest.len() implies verdict_may_be(
                rule,
                requested,
                metadata[rest[j]],
                #[trigger] rest_goes[j],
            ) by {
                assert(rest_goes[j] == goes[j]);
            }
        }
        law_every_copy_deleted(rule, requested, rest, metadata, rest_goes, i);
        let j = choose|j: int| 0 <= j < before.len() && before[j] == wanted;
        assert(after[j] == wanted);
    } else {
        assert(after[before.len() as int] == wanted);
    }
}

/// A mod stays known as long as one copy of it is left, and is forgotten once its last copy was
/// deleted. What is known of mods that were not deleted stays as it was.
pub proof fn law_known_while_a_copy_is_left(
    synced: Map<Seq<char>, SyncModel>,
    metadata: Map<Seq<char>, MetadataModel>,
    deleted: Seq<DeletionModel>,
    mod_id: Seq<char>,
)
    requires
        synced.contains_key(mod_id),
    ensures
        synced.remove_keys(gone(metadata, deleted)).contains_key(mod_id) <==> copy_left(
            metadata,
            deleted,
            mod_id,
        ) || !mod_deleted(deleted, mod_id),
        synced.remove_keys(gone(metadata, deleted)).contains_key(mod_id) ==> synced.remove_keys(
            gone(metadata, deleted),
        )[mod_id] == synced[mod_id],
{
}

/// Every mod that was asked for is either deleted or named in what the user is told.
pub proof fn law_every_request_accounted_for(
    requested: Map<Seq<char>, Option<Seq<char>>>,
    deleted: Seq<DeletionModel>,
    mod_id: Seq<char>,
)
    requires
        requested.dom().finite(),
        requested.contains_key(mod_id),
    ensures
        not_deleted(requested, deleted).contains(mod_id) <==> !mod_deleted(deleted, mod_id),
{
    lemma_finite_in_order(requested.dom());
    assert(in_order(requested.dom()).to_set().contains(mod_id));
    lemma_filtered(
        in_order(requested.dom()),
        |id: Seq<char>| !mod_deleted(deleted, id),
        mod_id,
    );
}

proof fn lemma_orphan_has_reason(
    metadata: Map<Seq<char>, MetadataModel>,
    everything: Map<Seq<char>, MetadataModel>,
    deleted: Seq<DeletionModel>,
    going: Set<Seq<char>>,
    mod_id: Seq<char>,
)
    requires
        are_the_orphans(metadata, everything, deleted, going),
        going.contains(mod_id),
    ensures
        orphaned(metadata, everything, deleted, going, mod_id),
{
    let fewer = going.remove(mod_id);
    if !orphaned(metadata, everything, deleted, going, mod_id) {
        assert forall|other: Seq<char>| #[trigger]
            orphaned(metadata, everything, deleted, fewer, other) implies fewer.contains(other) by {
            lemma_orphan_goes(metadata, everything, deleted, fewer, going, other);
            if other == mod_id {
                assert(was_needed(metadata, deleted, going, mod_id)) by {
                    let f = choose|f: Seq<char>| #[trigger]
                        metadata.contains_key(f) && away(metadata, deleted, fewer, f)
                            && metadata[f].needs(mod_id);
                    assert(away(metadata, deleted, going, f));
                }
                assert(needed_by_file(metadata, deleted, going, mod_id));
                let g = choose|g: Seq<char>| #[trigger]
                    metadata.contains_key(g) && !away(metadata, deleted, going, g)
                        && metadata[g].key() != mod_id && metadata[g].needs(mod_id);
                assert(!away(metadata, deleted, fewer, g));
                assert(needed_by_file(metadata, deleted, fewer, mod_id));
            }
        }
        assert(leaves_no_orphan(metadata, everything, deleted, fewer));
        assert(going.subset_of(fewer));
        assert(fewer.contains(mod_id));
    }
}

/// What a deleted mod needs, and is installed, goes exactly where no mod that is still installed
/// needs it. Here what goes along counts as deleted, so that its own dependencies may go too.
pub proof fn law_dependency_goes_iff_not_needed(
    metadata: Map<Seq<char>, MetadataModel>,
    everything: Map<Seq<char>, MetadataModel>,
    deleted: Seq<DeletionModel>,
    going: Set<Seq<char>>,
    mod_id: Seq<char>,
)
    requires
        are_the_orphans(metadata, everything, deleted, going),
        copy_left(metadata, deleted, mod_id),
        was_needed(metadata, deleted, going, mod_id),
    ensures
        going.contains(mod_id) <==> !still_needed(metadata, everything, deleted, going, mod_id),
{
    if going.contains(mod_id) {
        lemma_orphan_has_reason(metadata, everything, deleted, going, mod_id);
    } else {
        assert(!orphaned(metadata, everything, deleted, going, mod_id));
    }
}

/// A mod goes along only where it is installed and something that goes away needed it.
pub proof fn law_only_dependencies_go_along(
    metadata: Map<Seq<char>, MetadataModel>,
    everything: Map<Seq<char>, MetadataModel>,
    deleted: Seq<DeletionModel>,
    going: Set<Seq<char>>,
    mod_id: Seq<char>,
)
    requires
        are_the_orphans(metadata, everything, deleted, going),
        going.contains(mod_id),
    ensures
        copy_left(metadata, deleted, mod_id),
        was_needed(metadata, deleted, going, mod_id),
        !still_needed(metadata, everything, deleted, going, mod_id),
{
    lemma_orphan_has_reason(metadata, everything, deleted, going, mod_id);
}

/// The mods that go along are determined by the files and by what was deleted.
pub proof fn law_orphans_are_determined(
    metadata: Map<Seq<char>, MetadataModel>,
    everything: Map<Seq<char>, MetadataModel>,
    deleted: Seq<DeletionModel>,
    a: Set<Seq<char>>,
    b: Set<Seq<char>>,
)
    requires
        are_the_orphans(metadata, everything, deleted, a),
        are_the_orphans(metadata, everything, deleted, b),
    ensures
        a == b,
{
    assert(a.subset_of(b) && b.subset_of(a));
    assert(a =~= b);
}

/// The user is told of just those typed mods of which no file was deleted, in the order of their
/// ids, each once.
pub proof fn law_told_iff_nothing_deleted(
    requested: Map<Seq<char>, Option<Seq<char>>>,
    deleted: Seq<DeletionModel>,
)
    requires
        requested.dom().finite(),
    ensures
        increasing(not_deleted(requested, deleted)),
        forall|mod_id: Seq<char>| #[trigger]
            not_deleted(requested, deleted).contains(mod_id) <==> requested.contains_key(mod_id)
                && forall|k: int|
                0 <= k < deleted.len() ==> (#[trigger] deleted[k]).mod_id != mod_id,
{
    let names = in_order(requested.dom());
    let test = |id: Seq<char>| !mod_deleted(deleted, id);
    lemma_finite_in_order(requested.dom());
    lemma_filtered_increasing(names, test);
    assert forall|mod_id: Seq<char>| #[trigger]
        not_deleted(requested, deleted).contains(mod_id) <==> requested.contains_key(mod_id)
            && forall|k: int|
            0 <= k < deleted.len() ==> (#[trigger] deleted[k]).mod_id != mod_id by {
        lemma_filtered(names, test, mod_id);
        assert(names.to_set().contains(mod_id) <==> requested.dom().contains(mod_id));
        if not_deleted(requested, deleted).contains(mod_id) {
            assert forall|k: int| 0 <= k < deleted.len() implies (#[trigger] deleted[k]).mod_id
                != mod_id by {}
        }
    }
}

} // verus!
