//! What is asked to be installed, and which download each request comes down to.

use crate::aliases::{DownloadURL, ModID, ModName, ModVersion};
use crate::answers::{
    answers, askable, combinable, combines, pick_view, pickable, picks, Pick,
};
use crate::package::{Package, PackageModel};
use crate::questions::{answered, asks_both};
use crate::text::{
    decimal, decimal_text, lemma_decimal_ends, lemma_precedes_irreflexive, lemma_precedes_total,
    lemma_precedes_transitive, lemma_trimmed, lowercase, precedes, same_text, str_precedes, to_lowercase, trim,
    trimmed,
};
use std::path::PathBuf;
use vstd::prelude::*;

verus! {

/// A mod that is to be downloaded.
#[derive(Debug, Clone, Default)]
pub struct Install {
    pub mod_id: ModID,
    pub mod_name: ModName,
    pub version_to_install: ModVersion,
    /// Where `version_to_install` can be downloaded.
    pub download_url: DownloadURL,
    /// The file that the download replaces, absent for a fresh install.
    pub current_file_path: Option<PathBuf>,
}

/// What an install says.
#[verifier::ext_equal]
pub struct InstallModel {
    pub mod_id: Seq<char>,
    pub mod_name: Seq<char>,
    pub version_to_install: Seq<char>,
    pub download_url: Seq<char>,
    pub current_file_path: Option<PathBuf>,
}

impl DeepView for Install {
    type V = InstallModel;

    open spec fn deep_view(&self) -> InstallModel {
        InstallModel {
            mod_id: self.mod_id@,
            mod_name: self.mod_name@,
            version_to_install: self.version_to_install@,
            download_url: self.download_url@,
            current_file_path: self.current_file_path,
        }
    }
}

/// A mod that was downloaded, or that should have been.
#[derive(Debug, Clone)]
pub struct Installed {
    pub mod_id: ModID,
    pub mod_name: ModName,
    pub installed_file_path: Option<PathBuf>,
    /// The file that was replaced, absent after a fresh install.
    pub old_file_path: Option<PathBuf>,
    pub install_version: ModVersion,
    pub success: bool,
}

/// What an installed mod says.
#[verifier::ext_equal]
pub struct InstalledModel {
    pub mod_id: Seq<char>,
    pub mod_name: Seq<char>,
    pub installed_file_path: Option<PathBuf>,
    pub old_file_path: Option<PathBuf>,
    pub install_version: Seq<char>,
    pub success: bool,
}

impl DeepView for Installed {
    type V = InstalledModel;

    open spec fn deep_view(&self) -> InstalledModel {
        InstalledModel {
            mod_id: self.mod_id@,
            mod_name: self.mod_name@,
            installed_file_path: self.installed_file_path,
            old_file_path: self.old_file_path,
            install_version: self.install_version@,
            success: self.success,
        }
    }
}

/// Nothing installed yet.
pub open spec fn nothing_installed() -> InstalledModel {
    InstalledModel {
        mod_id: Seq::empty(),
        mod_name: Seq::empty(),
        installed_file_path: None,
        old_file_path: None,
        install_version: Seq::empty(),
        success: false,
    }
}

impl Default for Installed {
    fn default() -> (r: Self)
        ensures
            r.deep_view() == nothing_installed(),
    {
        Self::new()
    }
}

impl Installed {
    pub fn new() -> (r: Self)
        ensures
            r.deep_view() == nothing_installed(),
            r.mod_id@.len() == 0,
            r.mod_name@.len() == 0,
            r.installed_file_path is None,
            r.old_file_path is None,
            r.install_version@.len() == 0,
            !r.success,
    {
        Installed {
            mod_id: String::new(),
            mod_name: String::new(),
            installed_file_path: None,
            old_file_path: None,
            install_version: String::new(),
            success: false,
        }
    }
}

/// The condition that a patch of the same major and minor version meets.
pub open spec fn same_minor(major: u64, minor: u64, patch: u64) -> Seq<char> {
    "~"@ + decimal(major as nat) + "."@ + decimal(minor as nat) + "."@ + decimal(patch as nat)
}

/// Whether the version `declared` that a mod declares of a dependency may come down to the
/// condition `r`, given what the rules answer about it: none for an empty version or `*`, the
/// version itself where it has an operator, else any patch of its major and minor version, or
/// none where it cannot be parsed.
pub open spec fn requires_version<O: Fn(&str) -> bool, N: Fn(&str) -> Option<(u64, u64, u64)>>(
    has_operator: O,
    numbers: N,
    declared: Seq<char>,
    r: Option<Seq<char>>,
) -> bool {
    let version = trimmed(declared);
    if version.len() == 0 || version == "*"@ {
        r == None::<Seq<char>>
    } else {
        ||| answers(has_operator, version, true) && r == Some(version)
        ||| answers(has_operator, version, false) && exists|parsed: Option<(u64, u64, u64)>|
            #[trigger] answers(numbers, version, parsed) && r == match parsed {
                Some((major, minor, patch)) => Some(same_minor(major, minor, patch)),
                None => None,
            }
    }
}

/// Turns a dependency's declared version into a condition that can be resolved against.
///
/// Authors declare a dependency like 2.3.1 meaning "this is what I built against". A different
/// patch of the same major.minor is compatible, a different minor usually isn't, so the condition
/// is ~2.3.1. An operator is taken as it stands, and what is a wildcard or cannot be parsed was
/// never really pinned.
///
/// `has_semver_operator` tells whether a version has an operator, and `parse_version` gives the
/// major, minor and patch number of one that can be parsed.
pub fn dependency_requirement<
    O: Fn(&str) -> bool,
    N: Fn(&str) -> Option<(u64, u64, u64)>,
>(required_version: &str, has_semver_operator: &O, parse_version: &N) -> (r: Option<ModVersion>)
    requires
        askable(*has_semver_operator),
        askable(*parse_version),
    ensures
        requires_version(
            *has_semver_operator,
            *parse_version,
            required_version@,
            r.deep_view(),
        ),
{
    let required = trim(required_version);
    if required.is_empty() || same_text(required, "*") {
        return None;
    }
    if has_semver_operator(required) {
        return Some(required.to_owned());
    }
    let parsed = parse_version(required);
    assert(answers(*parse_version, required@, parsed));
    match parsed {
        Some((major, minor, patch)) => {
            let mut r = "~".to_owned();
            r.append(decimal_text(major).as_str());
            r.append(".");
            r.append(decimal_text(minor).as_str());
            r.append(".");
            r.append(decimal_text(patch).as_str());
            Some(r)
        },
        None => None,
    }
}

proof fn lemma_same_minor(major: u64, minor: u64, patch: u64)
    ensures
        same_minor(major, minor, patch).len() > 1,
        trimmed(same_minor(major, minor, patch)) == same_minor(major, minor, patch),
{
    let s = same_minor(major, minor, patch);
    reveal_strlit("~");
    reveal_strlit(".");
    lemma_decimal_ends(major as nat);
    lemma_decimal_ends(patch as nat);
    assert(s.first() == '~');
    assert(s.last() == decimal(patch as nat).last());
    lemma_trimmed(s);
}

/// What a declared version comes down to is trimmed, is not empty and is no wildcard, and white
/// space around the declared version makes no difference. This is so whatever the rules answer.
pub proof fn law_requirement_is_trimmed<
    O: Fn(&str) -> bool,
    N: Fn(&str) -> Option<(u64, u64, u64)>,
>(has_operator: O, numbers: N, declared: Seq<char>, condition: Seq<char>)
    requires
        requires_version(has_operator, numbers, declared, Some(condition)),
    ensures
        trimmed(condition) == condition,
        condition.len() > 0,
        condition != "*"@,
        forall|r: Option<Seq<char>>| #[trigger]
            requires_version(has_operator, numbers, trimmed(declared), r) <==> requires_version(
                has_operator,
                numbers,
                declared,
                r,
            ),
        answers(has_operator, condition, true) || exists|major: u64, minor: u64, patch: u64|
            condition == #[trigger] same_minor(major, minor, patch),
{
    lemma_trimmed(declared);
    let version = trimmed(declared);
    if !(answers(has_operator, version, true) && condition == version) {
        let parsed = choose|parsed: Option<(u64, u64, u64)>| #[trigger]
            answers(numbers, version, parsed) && Some(condition) == match parsed {
                Some((major, minor, patch)) => Some(same_minor(major, minor, patch)),
                None => None,
            };
        let (major, minor, patch) = parsed->0;
        assert(condition == same_minor(major, minor, patch));
        lemma_same_minor(major, minor, patch);
        reveal_strlit("*");
    }
}

/// A condition requires itself: what a declared version comes down to has an operator and comes
/// down to itself. This is so of an operator rule that answers once about it, and that finds the
/// operator where the condition is `~a.b.c`.
pub proof fn law_requirement_requires_itself<
    O: Fn(&str) -> bool,
    N: Fn(&str) -> Option<(u64, u64, u64)>,
>(has_operator: O, numbers: N, declared: Seq<char>, condition: Seq<char>)
    requires
        requires_version(has_operator, numbers, declared, Some(condition)),
        !(answers(has_operator, condition, true) && answers(has_operator, condition, false)),
        forall|major: u64, minor: u64, patch: u64|
            condition == #[trigger] same_minor(major, minor, patch) ==> answers(
                has_operator,
                condition,
                true,
            ),
    ensures
        answers(has_operator, condition, true),
        forall|r: Option<Seq<char>>| #[trigger]
            requires_version(has_operator, numbers, condition, r) <==> r == Some(condition),
{
    law_requirement_is_trimmed(has_operator, numbers, declared, condition);
}

/// What a caller wants installed: an id, and optionally a condition the version has to meet.
#[derive(Debug, Clone)]
pub struct InstallRequest {
    pub mod_id: ModID,
    /// A condition on the version. None means whatever the config pin and game pin allow.
    pub version_req: Option<ModVersion>,
    /// Only tried when `version_req` matches nothing. Modpacks name an exact build and want the
    /// nearest patch of it when an author pulls that release.
    pub fallback_req: Option<ModVersion>,
}

/// What a request says.
#[verifier::ext_equal]
pub struct RequestModel {
    pub mod_id: Seq<char>,
    pub version_req: Option<Seq<char>>,
    pub fallback_req: Option<Seq<char>>,
}

impl DeepView for InstallRequest {
    type V = RequestModel;

    open spec fn deep_view(&self) -> RequestModel {
        RequestModel {
            mod_id: self.mod_id@,
            version_req: self.version_req.deep_view(),
            fallback_req: self.fallback_req.deep_view(),
        }
    }
}

impl InstallRequest {
    pub fn new(mod_id: ModID) -> (r: Self)
        ensures
            r.deep_view() == (RequestModel {
                mod_id: mod_id@,
                version_req: None,
                fallback_req: None,
            }),
    {
        InstallRequest { mod_id, version_req: None, fallback_req: None }
    }

    #[must_use]
    pub fn with_version(self, version_req: Option<ModVersion>) -> (r: Self)
        ensures
            r.deep_view() == (RequestModel {
                version_req: version_req.deep_view(),
                ..self.deep_view()
            }),
    {
        InstallRequest { mod_id: self.mod_id, version_req, fallback_req: self.fallback_req }
    }

    #[must_use]
    pub fn with_fallback(self, fallback_req: Option<ModVersion>) -> (r: Self)
        ensures
            r.deep_view() == (RequestModel {
                fallback_req: fallback_req.deep_view(),
                ..self.deep_view()
            }),
    {
        InstallRequest { mod_id: self.mod_id, version_req: self.version_req, fallback_req }
    }
}

/// Why a requested mod didn't make it into the install list.
#[derive(Debug, Clone)]
pub enum ResolveFailure {
    /// The mod site gave nothing at all for this id.
    NotFound(ModID),
    /// The mod exists, but nothing it publishes satisfies the conditions.
    NoMatchingVersion(ModID, String),
}

/// What a failure says.
pub enum FailureModel {
    NotFound(Seq<char>),
    NoMatchingVersion(Seq<char>, Seq<char>),
}

impl DeepView for ResolveFailure {
    type V = FailureModel;

    open spec fn deep_view(&self) -> FailureModel {
        match self {
            ResolveFailure::NotFound(mod_id) => FailureModel::NotFound(mod_id@),
            ResolveFailure::NoMatchingVersion(mod_id, reason) => FailureModel::NoMatchingVersion(
                mod_id@,
                reason@,
            ),
        }
    }
}

impl FailureModel {
    /// The mod that the failure is about.
    pub open spec fn mod_id(self) -> Seq<char> {
        match self {
            FailureModel::NotFound(mod_id) => mod_id,
            FailureModel::NoMatchingVersion(mod_id, _) => mod_id,
        }
    }

    /// The mod and, on the next line, why it failed.
    pub open spec fn row(self) -> Seq<char> {
        match self {
            FailureModel::NotFound(mod_id) => mod_id
                + "\nNot found on the mod site. It may have been renamed, removed, or made private."@,
            FailureModel::NoMatchingVersion(mod_id, reason) => mod_id + "\n"@ + reason,
        }
    }
}

impl ResolveFailure {
    pub fn mod_id(&self) -> (r: &str)
        ensures
            r@ == self.deep_view().mod_id(),
            match self {
                ResolveFailure::NotFound(mod_id) => r@ == mod_id@,
                ResolveFailure::NoMatchingVersion(mod_id, _) => r@ == mod_id@,
            },
    {
        match self {
            ResolveFailure::NotFound(mod_id) => mod_id.as_str(),
            ResolveFailure::NoMatchingVersion(mod_id, _) => mod_id.as_str(),
        }
    }

    /// "\<mod id\>\n\<why\>", the shape of one row in the list of mods that failed.
    pub fn to_row(&self) -> (r: String)
        ensures
            r@ == self.deep_view().row(),
            match self {
                ResolveFailure::NotFound(mod_id) => r@ == mod_id@
                    + "\nNot found on the mod site. It may have been renamed, removed, or made private."@,
                ResolveFailure::NoMatchingVersion(mod_id, reason) => r@ == mod_id@ + "\n"@ + reason@,
            },
    {
        match self {
            ResolveFailure::NotFound(mod_id) => {
                let mut r = mod_id.clone();
                r.append(
                    "\nNot found on the mod site. It may have been renamed, removed, or made private.",
                );
                r
            },
            ResolveFailure::NoMatchingVersion(mod_id, reason) => {
                let mut r = mod_id.clone();
                r.append("\n");
                r.append(reason.as_str());
                r
            },
        }
    }
}

/// What holds for all the requests that are resolved together.
#[derive(Debug, Clone)]
pub struct ResolveOptions {
    pub pinned_game_version: String,
    pub allow_unstable: bool,
    /// false when the user forced past their own pins, or for modpacks, which carry the exact
    /// versions they were built against and shouldn't be second guessed by a global pin.
    pub apply_config_pins: bool,
}

/// What the mod site says of a mod, `R` being its releases.
#[derive(Debug, Clone)]
pub struct ApiMod<R> {
    /// The site's own number for the mod.
    pub mod_id: String,
    pub url_alias: Option<String>,
    pub name: Option<ModName>,
    pub releases: R,
}

/// A mod of the site with its texts as characters.
#[verifier::ext_equal]
pub struct ApiModModel<R> {
    pub mod_id: Seq<char>,
    pub url_alias: Option<Seq<char>>,
    pub name: Option<Seq<char>>,
    pub releases: R,
}

impl<R> DeepView for ApiMod<R> {
    type V = ApiModModel<R>;

    open spec fn deep_view(&self) -> ApiModModel<R> {
        ApiModModel {
            mod_id: self.mod_id@,
            url_alias: self.url_alias.deep_view(),
            name: self.name.deep_view(),
            releases: self.releases,
        }
    }
}

impl<R> ApiModModel<R> {
    /// The name of the mod, empty where the site gives none.
    pub open spec fn display_name(self) -> Seq<char> {
        match self.name {
            Some(name) => name,
            None => Seq::empty(),
        }
    }
}

impl<R> ApiMod<R> {
    /// The name of the mod, empty where the site gives none.
    pub fn display_name(&self) -> (r: String)
        ensures
            r@ == self.deep_view().display_name(),
    {
        match &self.name {
            Some(name) => name.clone(),
            None => String::new(),
        }
    }
}

/// Whether `r` may be both of two conditions, either of which may be absent.
pub open spec fn conjoined<C: Fn(&str, &str) -> String>(
    combine: C,
    a: Option<Seq<char>>,
    b: Option<Seq<char>>,
    r: Option<Seq<char>>,
) -> bool {
    match (a, b) {
        (Some(a), Some(b)) => r is Some && combines(combine, a, b, r->0),
        (Some(a), None) => r == Some(a),
        (None, b) => r == b,
    }
}

/// ANDs the caller's condition together with the user's config pin. Either side may be absent.
/// `combine_version_reqs` makes one condition of two.
pub fn merge_condition<C: Fn(&str, &str) -> String>(
    requested: Option<&str>,
    config_pin: Option<&str>,
    combine_version_reqs: &C,
) -> (r: Option<ModVersion>)
    requires
        combinable(*combine_version_reqs),
    ensures
        conjoined(
            *combine_version_reqs,
            requested.deep_view(),
            config_pin.deep_view(),
            r.deep_view(),
        ),
        asks_both(
            *combine_version_reqs,
            requested.deep_view(),
            config_pin.deep_view(),
            r.deep_view(),
        ),
{
    match (requested, config_pin) {
        (Some(a), Some(b)) => {
            let both = combine_version_reqs(a, b);
            assert(combines(*combine_version_reqs, a@, b@, both@));
            Some(both)
        },
        (Some(a), None) => Some(a.to_owned()),
        (None, Some(b)) => Some(b.to_owned()),
        (None, None) => None,
    }
}

/// The text of an optional condition.
pub(crate) fn as_text(condition: &Option<String>) -> (r: Option<&str>)
    ensures
        r.deep_view() == condition.deep_view(),
{
    match condition {
        Some(text) => Some(text.as_str()),
        None => None,
    }
}

/// Resolves one mod against a single set of conditions. `parse_pinned_version` picks the release.
pub fn resolve_dep_version<R, P: Fn(&R, &Package, &str, bool) -> Pick>(
    api_mod: &ApiMod<R>,
    mod_id: &str,
    pinned_version: Option<ModVersion>,
    pinned_game_version: &str,
    allow_unstable: bool,
    parse_pinned_version: &P,
) -> (r: Pick)
    requires
        pickable::<R, P>(*parse_pinned_version),
    ensures
        picks(
            *parse_pinned_version,
            api_mod.releases,
            PackageModel { mod_id: mod_id@, pinned_version: pinned_version.deep_view() },
            pinned_game_version@,
            allow_unstable,
            pick_view(r),
        ),
        answered(
            *parse_pinned_version,
            api_mod.releases,
            mod_id@,
            pinned_version.deep_view(),
            pinned_game_version@,
            allow_unstable,
            r,
        ),
        exists|package: &Package, version: &str|
            {
                &&& #[trigger] call_ensures(
                    *parse_pinned_version,
                    (&api_mod.releases, package, version, allow_unstable),
                    r,
                )
                &&& package.mod_id@ == mod_id@
                &&& package.pinned_version.deep_view() == pinned_version.deep_view()
                &&& version@ == pinned_game_version@
            },
{
    let package = Package { mod_id: mod_id.to_owned(), pinned_version };
    let r = parse_pinned_version(
        &api_mod.releases,
        &package,
        pinned_game_version,
        allow_unstable,
    );
    assert(call_ensures(
        *parse_pinned_version,
        (&api_mod.releases, &package, pinned_game_version, allow_unstable),
        r,
    ));
    r
}

/// Whether the mod at position `x` is shown before the one at position `y`: by their names in
/// lowercase, and by their positions where these are the same.
pub open spec fn shown_before(mods: Seq<InstalledModel>, x: int, y: int) -> bool {
    let a = lowercase(mods[x].mod_name);
    let b = lowercase(mods[y].mod_name);
    precedes(a, b) || (a == b && x < y)
}

/// Whether `r` is `mods` in the order in which they are shown, `order` giving the position that
/// each one had.
pub open spec fn shown_as(
    mods: Seq<InstalledModel>,
    order: Seq<int>,
    r: Seq<InstalledModel>,
) -> bool {
    &&& order.len() == mods.len()
    &&& r.len() == mods.len()
    &&& order.no_duplicates()
    &&& forall|i: int|
        0 <= i < r.len() ==> 0 <= #[trigger] order[i] < mods.len() && r[i] == mods[order[i]]
    &&& forall|i: int, j: int|
        0 <= i < j < r.len() ==> shown_before(mods, #[trigger] order[i], #[trigger] order[j])
}

proof fn lemma_shown_insert(
    mods: Seq<InstalledModel>,
    n: int,
    order: Seq<int>,
    r: Seq<InstalledModel>,
    p: int,
)
    requires
        0 <= n < mods.len(),
        shown_as(mods.take(n), order, r),
        0 <= p <= n,
        p < n ==> precedes(lowercase(mods[n].mod_name), lowercase(r[p].mod_name)),
        forall|k: int|
            0 <= k < p ==> !precedes(
                lowercase(mods[n].mod_name),
                lowercase(#[trigger] r[k].mod_name),
            ),
    ensures
        shown_as(mods.take(n + 1), order.insert(p, n), r.insert(p, mods[n])),
{
    let before = mods.take(n);
    let all = mods.take(n + 1);
    let new_order = order.insert(p, n);
    let after = r.insert(p, mods[n]);
    let key = lowercase(mods[n].mod_name);
    assert forall|k: int| 0 <= k < n implies before[k] == all[k] by {}
    assert forall|i: int| 0 <= i < after.len() implies 0 <= #[trigger] new_order[i] < all.len()
        && after[i] == all[new_order[i]] by {
        if i < p {
            assert(new_order[i] == order[i]);
        } else if i > p {
            assert(new_order[i] == order[i - 1]);
        }
    }
    assert forall|k: int| 0 <= k < p implies shown_before(all, #[trigger] order[k], n) by {
        lemma_precedes_total(key, lowercase(r[k].mod_name));
    }
    assert forall|k: int| p <= k < n implies shown_before(all, n, #[trigger] order[k]) by {
        if k > p {
            assert(shown_before(before, order[p], order[k]));
            if precedes(lowercase(r[p].mod_name), lowercase(r[k].mod_name)) {
                lemma_precedes_transitive(
                    key,
                    lowercase(r[p].mod_name),
                    lowercase(r[k].mod_name),
                );
            }
        }
        assert(r[p] == before[order[p]]);
        assert(r[k] == before[order[k]]);
    }
    assert forall|i: int, j: int| 0 <= i < j < after.len() implies shown_before(
        all,
        #[trigger] new_order[i],
        #[trigger] new_order[j],
    ) by {
        if j < p {
            assert(new_order[i] == order[i] && new_order[j] == order[j]);
            assert(shown_before(before, order[i], order[j]));
        } else if j == p {
            assert(new_order[i] == order[i]);
        } else if i < p {
            assert(new_order[i] == order[i] && new_order[j] == order[j - 1]);
            assert(shown_before(before, order[i], order[j - 1]));
        } else if i == p {
            assert(new_order[j] == order[j - 1]);
        } else {
            assert(new_order[i] == order[i - 1] && new_order[j] == order[j - 1]);
            assert(shown_before(before, order[i - 1], order[j - 1]));
        }
    }
    assert(new_order.no_duplicates()) by {
        assert forall|i: int, j: int|
            0 <= i < new_order.len() && 0 <= j < new_order.len() && i
                != j implies new_order[i] != new_order[j] by {
            let first = if i < j {
                i
            } else {
                j
            };
            let second = if i < j {
                j
            } else {
                i
            };
            assert(shown_before(all, new_order[first], new_order[second]));
            lemma_precedes_irreflexive(lowercase(all[new_order[first]].mod_name));
        }
    }
}

/// Puts the mods that were processed in the order in which they are shown.
pub fn sort_by_name(mods: Vec<Installed>) -> (r: Vec<Installed>)
    ensures
        exists|order: Seq<int>| #[trigger] shown_as(mods.deep_view(), order, r.deep_view()),
        r.deep_view().to_multiset() == mods.deep_view().to_multiset(),
        forall|i: int, j: int|
            0 <= i < j < r.len() ==> !precedes(
                lowercase((#[trigger] r.deep_view()[j]).mod_name),
                lowercase((#[trigger] r.deep_view()[i]).mod_name),
            ),
{
    let ghost all = mods.deep_view();
    let ghost mut order: Seq<int> = Seq::empty();
    let mut r: Vec<Installed> = Vec::new();
    assert(r.deep_view() =~= all.take(0));
    for next in it: mods
        invariant
            it.seq() == mods@,
            all == mods.deep_view(),
            shown_as(all.take(it.index()), order, r.deep_view()),
            r.deep_view().to_multiset() == all.take(it.index()).to_multiset(),
    {
        let ghost n = it.index();
        let ghost before = r.deep_view();
        let key = to_lowercase(next.mod_name.as_str());
        assert(all[n] == next.deep_view());
        let mut p: usize = 0;
        while p < r.len() && !str_precedes(
            key.as_str(),
            to_lowercase(r[p].mod_name.as_str()).as_str(),
        )
            invariant
                p <= r.len(),
                forall|k: int|
                    0 <= k < p ==> !precedes(
                        key@,
                        lowercase(#[trigger] r.deep_view()[k].mod_name),
                    ),
            decreases r.len() - p,
        {
            p = p + 1;
        }
        r.insert(p, next);
        proof {
            assert(r.deep_view() =~= before.insert(p as int, all[n]));
            lemma_shown_insert(all, n, order, before, p as int);
            vstd::seq_lib::to_multiset_insert(before, p as int, all[n]);
            vstd::seq_lib::to_multiset_build(all.take(n), all[n]);
            assert(all.take(n + 1) =~= all.take(n).push(all[n]));
            order = order.insert(p as int, n);
        }
    }
    proof {
        assert(all.take(all.len() as int) =~= all);
        law_shown_by_name(all, order, r.deep_view());
    }
    r
}

/// The mods are shown by their names in lowercase: none comes before one whose name precedes its
/// own. Of two with the same name in lowercase the one that was processed first comes first.
pub proof fn law_shown_by_name(
    mods: Seq<InstalledModel>,
    order: Seq<int>,
    r: Seq<InstalledModel>,
)
    requires
        shown_as(mods, order, r),
    ensures
        r.len() == mods.len(),
        order.no_duplicates(),
        forall|i: int|
            0 <= i < r.len() ==> 0 <= #[trigger] order[i] < mods.len() && r[i] == mods[order[i]],
        forall|i: int, j: int|
            0 <= i < j < r.len() ==> !precedes(
                lowercase((#[trigger] r[j]).mod_name),
                lowercase((#[trigger] r[i]).mod_name),
            ),
        forall|i: int, j: int|
            0 <= i < j < r.len() && lowercase((#[trigger] r[i]).mod_name) == lowercase(
                (#[trigger] r[j]).mod_name,
            ) ==> order[i] < order[j],
{
    assert forall|i: int, j: int| 0 <= i < j < r.len() implies !precedes(
        lowercase((#[trigger] r[j]).mod_name),
        lowercase((#[trigger] r[i]).mod_name),
    ) && (lowercase(r[i].mod_name) == lowercase(r[j].mod_name) ==> order[i] < order[j]) by {
        let a = lowercase(r[i].mod_name);
        let b = lowercase(r[j].mod_name);
        assert(r[i] == mods[order[i]] && r[j] == mods[order[j]]);
        assert(shown_before(mods, order[i], order[j]));
        lemma_precedes_irreflexive(a);
        if precedes(a, b) && precedes(b, a) {
            lemma_precedes_transitive(a, b, a);
        }
    }
}

} // verus!
