//! The dependencies that installed mods bring along, and which release of each is installed.

use crate::aliases::{DownloadURL, ModID, ModVersion};
use crate::answers::{answers, askable, combinable, pick_view, pickable, Pick, PickModel};
use crate::dependency_laws::{is_release_of, law_dependency_release_is_picked};
use crate::install_manager::{
    as_text, dependency_requirement, merge_condition, requires_version, ApiMod, ApiModModel,
};
use crate::messages::{Color, Notice, NoticeModel};
use crate::package::{find_pin_ignoring_case, pin_ignoring_case, Package, PackageModel};
use crate::questions::law_pin_is_that_of_the_first_package;
use crate::resolve_installs::{
    all_conjoined, lemma_all_conjoined_push, pick_under, picks_under,
};
use crate::text::{join, joined};
use vstd::prelude::*;
use vstd::std_specs::cmp::OrdSpec;

verus! {

/// A mod that asks for another one, and the version that it declares.
#[derive(Debug)]
pub struct Requester {
    pub mod_id: ModID,
    pub required_version: ModVersion,
}

/// What a requester says.
#[verifier::ext_equal]
pub struct RequesterModel {
    pub mod_id: Seq<char>,
    pub required_version: Seq<char>,
}

impl DeepView for Requester {
    type V = RequesterModel;

    open spec fn deep_view(&self) -> RequesterModel {
        RequesterModel { mod_id: self.mod_id@, required_version: self.required_version@ }
    }
}

impl Clone for Requester {
    fn clone(&self) -> (r: Self)
        ensures
            r.deep_view() == self.deep_view(),
    {
        Requester { mod_id: self.mod_id.clone(), required_version: self.required_version.clone() }
    }
}

/// The rules about versions that the resolution of dependencies asks.
pub struct VersionRules<O, N, V, C, P> {
    /// Tells whether a version has an operator.
    pub has_semver_operator: O,
    /// Gives the major, minor and patch number of a version that can be parsed.
    pub parse_numbers: N,
    /// Gives a version that can be parsed, for comparison with others.
    pub parse_version: V,
    /// Makes one condition of two.
    pub combine_version_reqs: C,
    /// Picks the release that meets a condition.
    pub parse_pinned_version: P,
}

/// Whether every rule can be asked about everything.
pub open spec fn usable<K, R, O, N, V, C, P>(rules: VersionRules<O, N, V, C, P>) -> bool where
    O: Fn(&str) -> bool,
    N: Fn(&str) -> Option<(u64, u64, u64)>,
    V: Fn(&str) -> Option<K>,
    C: Fn(&str, &str) -> String,
    P: Fn(&R, &Package, &str, bool) -> Pick,
 {
    &&& askable(rules.has_semver_operator)
    &&& askable(rules.parse_numbers)
    &&& askable::<Option<K>, V>(rules.parse_version)
    &&& combinable(rules.combine_version_reqs)
    &&& pickable::<R, P>(rules.parse_pinned_version)
}

/// Whether `r` may be what all requesters together require: every mod that asked gets a say.
pub open spec fn required_by_all<O, N, C>(
    has_operator: O,
    numbers: N,
    combine: C,
    requesters: Seq<RequesterModel>,
    r: Option<Seq<char>>,
) -> bool where
    O: Fn(&str) -> bool,
    N: Fn(&str) -> Option<(u64, u64, u64)>,
    C: Fn(&str, &str) -> String,
 {
    exists|conditions: Seq<Option<Seq<char>>>|
        {
            &&& conditions.len() == requesters.len()
            &&& forall|i: int|
                0 <= i < requesters.len() ==> requires_version(
                    has_operator,
                    numbers,
                    requesters[i].required_version,
                    #[trigger] conditions[i],
                )
            &&& #[trigger] all_conjoined(combine, conditions, r)
        }
}

/// Combines what the requesters require into one condition.
pub fn combined_requirement<O, N, C>(
    requesters: &Vec<Requester>,
    has_semver_operator: &O,
    parse_numbers: &N,
    combine_version_reqs: &C,
) -> (r: Option<ModVersion>) where
    O: Fn(&str) -> bool,
    N: Fn(&str) -> Option<(u64, u64, u64)>,
    C: Fn(&str, &str) -> String,

    requires
        askable(*has_semver_operator),
        askable(*parse_numbers),
        combinable(*combine_version_reqs),
    ensures
        required_by_all(
            *has_semver_operator,
            *parse_numbers,
            *combine_version_reqs,
            requesters.deep_view(),
            r.deep_view(),
        ),
{
    let mut combined: Option<String> = None;
    let ghost mut conditions: Seq<Option<Seq<char>>> = Seq::empty();
    let mut i: usize = 0;
    while i < requesters.len()
        invariant
            i <= requesters.len(),
            askable(*has_semver_operator),
            askable(*parse_numbers),
            combinable(*combine_version_reqs),
            conditions.len() == i,
            forall|j: int|
                0 <= j < i ==> requires_version(
                    *has_semver_operator,
                    *parse_numbers,
                    requesters.deep_view()[j].required_version,
                    #[trigger] conditions[j],
                ),
            all_conjoined(*combine_version_reqs, conditions, combined.deep_view()),
        decreases requesters.len() - i,
    {
        let condition = dependency_requirement(
            requesters[i].required_version.as_str(),
            has_semver_operator,
            parse_numbers,
        );
        let together = merge_condition(
            as_text(&combined),
            as_text(&condition),
            combine_version_reqs,
        );
        proof {
            assert(requesters.deep_view()[i as int] == requesters[i as int].deep_view());
            lemma_all_conjoined_push(
                *combine_version_reqs,
                conditions,
                combined.deep_view(),
                condition.deep_view(),
                together.deep_view(),
            );
            conditions = conditions.push(condition.deep_view());
        }
        combined = together;
        i = i + 1;
    }
    combined
}

/// Whether the order of `K` is a total order.
pub open spec fn ordered_lawfully<K: Ord>() -> bool {
    vstd::laws_cmp::obeys_cmp::<K>()
}

/// Whether `a` is above `b` in the order of `K`.
pub open spec fn above<K: Ord>(a: K, b: K) -> bool {
    a.cmp_spec(&b) == core::cmp::Ordering::Greater
}

fn is_above<K: Ord>(a: &K, b: &K) -> (r: bool)
    ensures
        ordered_lawfully::<K>() ==> r == above(*a, *b),
{
    proof {
        reveal(vstd::laws_cmp::obeys_cmp_ord);
    }
    match a.cmp(b) {
        core::cmp::Ordering::Greater => true,
        _ => false,
    }
}

proof fn lemma_not_above<K: Ord>(a: K, b: K, c: K)
    requires
        ordered_lawfully::<K>(),
    ensures
        !above(a, a),
        above(a, b) ==> !above(b, a),
        above(a, b) && above(b, c) ==> above(a, c),
        !above(a, b) && above(c, b) ==> above(c, a),
        !above(a, b) && !above(b, c) ==> !above(a, c),
{
    reveal(vstd::laws_cmp::obeys_cmp_ord);
    reveal(vstd::laws_cmp::obeys_cmp_partial_ord);
    reveal(vstd::laws_cmp::obeys_partial_cmp_spec_properties);
    reveal(vstd::laws_eq::obeys_eq_spec_properties);
}

/// Whether `highest` is the position of the highest version, the last one where several are
/// equally high. There is none where no version could be parsed.
pub open spec fn is_highest<K: Ord>(versions: Seq<Option<K>>, highest: Option<int>) -> bool {
    match highest {
        None => forall|j: int| 0 <= j < versions.len() ==> (#[trigger] versions[j]) is None,
        Some(i) => {
            &&& 0 <= i < versions.len()
            &&& versions[i] is Some
            &&& ordered_lawfully::<K>() ==> forall|j: int|
                0 <= j < versions.len() && (#[trigger] versions[j]) is Some ==> !above(
                    versions[j]->0,
                    versions[i]->0,
                ) && (j > i ==> above(versions[i]->0, versions[j]->0))
        },
    }
}

/// Whether `highest` may be the position of the requester that declares the highest version.
pub open spec fn highest_may_be<K: Ord, V: Fn(&str) -> Option<K>>(
    parse: V,
    requesters: Seq<RequesterModel>,
    highest: Option<int>,
) -> bool {
    exists|versions: Seq<Option<K>>|
        {
            &&& versions.len() == requesters.len()
            &&& forall|i: int|
                0 <= i < requesters.len() ==> answers(
                    parse,
                    requesters[i].required_version,
                    #[trigger] versions[i],
                )
            &&& #[trigger] is_highest(versions, highest)
        }
}

/// The position as an integer.
pub open spec fn position(i: Option<usize>) -> Option<int> {
    match i {
        Some(i) => Some(i as int),
        None => None,
    }
}

proof fn lemma_highest_step<K: Ord>(before: Seq<Option<K>>, highest: Option<int>, next: Option<K>)
    requires
        is_highest(before, highest),
        ordered_lawfully::<K>(),
    ensures
        next is None || (highest is Some && above(before[highest->0]->0, next->0)) ==> is_highest(
            before.push(next),
            highest,
        ),
        next is Some && (highest is None || !above(before[highest->0]->0, next->0)) ==> is_highest(
            before.push(next),
            Some(before.len() as int),
        ),
{
    let versions = before.push(next);
    assert forall|j: int| 0 <= j < before.len() implies #[trigger] versions[j] == before[j] by {}
    assert(versions[before.len() as int] == next);
    if let Some(version) = next {
        lemma_not_above(version, version, version);
        if let Some(p) = highest {
            assert(versions[p] == before[p]);
            let top = before[p]->0;
            lemma_not_above(top, version, version);
            lemma_not_above(version, top, version);
            assert forall|j: int|
                0 <= j < before.len() && before[j] is Some && !above(top, version) implies !above(
                before[j]->0,
                version,
            ) by {
                lemma_not_above(before[j]->0, top, version);
            }
        }
    }
}

/// Finds the requester that declares the highest version.
pub fn highest_requester<K: Ord, V: Fn(&str) -> Option<K>>(
    requesters: &Vec<Requester>,
    parse_version: &V,
) -> (r: Option<usize>)
    requires
        askable::<Option<K>, V>(*parse_version),
    ensures
        highest_may_be::<K, V>(*parse_version, requesters.deep_view(), position(r)),
        r is Some ==> r->0 < requesters.len(),
{
    let mut best: Option<usize> = None;
    let mut versions: Vec<Option<K>> = Vec::new();
    let mut i: usize = 0;
    while i < requesters.len()
        invariant
            i <= requesters.len(),
            askable::<Option<K>, V>(*parse_version),
            versions.len() == i,
            forall|j: int|
                0 <= j < i ==> answers(
                    *parse_version,
                    requesters.deep_view()[j].required_version,
                    #[trigger] versions@[j],
                ),
            is_highest(versions@, position(best)),
        decreases requesters.len() - i,
    {
        let parsed = parse_version(requesters[i].required_version.as_str());
        let ghost before = versions@;
        proof {
            assert(requesters.deep_view()[i as int] == requesters[i as int].deep_view());
            assert(answers(
                *parse_version,
                requesters.deep_view()[i as int].required_version,
                parsed,
            ));
            if ordered_lawfully::<K>() {
                lemma_highest_step(before, position(best), parsed);
            }
        }
        versions.push(parsed);
        let replaces = match &versions[i] {
            None => false,
            Some(version) => match best {
                None => true,
                Some(p) => match &versions[p] {
                    Some(highest) => !is_above(highest, version),
                    None => true,
                },
            },
        };
        proof {
            assert forall|j: int| 0 <= j < before.len() implies #[trigger] versions@[j]
                == before[j] by {}
        }
        if replaces {
            best = Some(i);
        }
        i = i + 1;
    }
    best
}

impl<R> ApiModModel<R> {
    /// The id under which the mod is known: its alias, which is the mod id in most cases, else
    /// the site's number for it.
    pub open spec fn known_id(self) -> Seq<char> {
        match self.url_alias {
            Some(alias) => alias,
            None => self.mod_id,
        }
    }
}

impl<R> ApiMod<R> {
    /// The id under which the mod is known: its alias, which is the mod id in most cases, else
    /// the site's number for it.
    pub fn known_id(&self) -> (r: &str)
        ensures
            r@ == self.deep_view().known_id(),
    {
        match &self.url_alias {
            Some(alias) => alias.as_str(),
            None => self.mod_id.as_str(),
        }
    }
}

/// "`<mod>` wants `<version>`".
pub open spec fn want(requester: RequesterModel) -> Seq<char> {
    requester.mod_id + " wants "@ + requester.required_version
}

/// What is said where no version satisfies everyone and the highest is installed.
pub open spec fn highest_notice(
    dep_id: Seq<char>,
    requesters: Seq<RequesterModel>,
    version: Seq<char>,
) -> NoticeModel {
    NoticeModel {
        text: dep_id + " is requested by multiple mods: ("@ + joined(
            requesters.map_values(|r: RequesterModel| want(r)),
            ", "@,
        ) + "). Installing highest version needed: "@ + version + "."@,
        color: Color::Yellow,
    }
}

/// What is said where no release of a dependency can be installed.
pub open spec fn incompatible_notice(dep_id: Seq<char>, reason: Seq<char>) -> NoticeModel {
    NoticeModel {
        text: "Unable to locate compatible versions for "@ + dep_id + " - "@ + reason,
        color: Color::Red,
    }
}

fn wants(requesters: &Vec<Requester>) -> (r: String)
    ensures
        r@ == joined(
            requesters.deep_view().map_values(|r: RequesterModel| want(r)),
            ", "@,
        ),
{
    let mut texts: Vec<String> = Vec::new();
    let mut i: usize = 0;
    while i < requesters.len()
        invariant
            i <= requesters.len(),
            texts.len() == i,
            forall|j: int| 0 <= j < i ==> #[trigger] texts[j]@ == want(requesters.deep_view()[j]),
        decreases requesters.len() - i,
    {
        let mut text = requesters[i].mod_id.clone();
        text.append(" wants ");
        text.append(requesters[i].required_version.as_str());
        texts.push(text);
        i = i + 1;
    }
    assert(texts.deep_view() =~= requesters.deep_view().map_values(|r: RequesterModel| want(r)));
    join(&texts, ", ")
}

/// Whether the resolution of a dependency may come to `release` and say `notice`.
///
/// One version that keeps everyone happy is used, with the user's pin on top. Where there is none
/// and several mods asked, the highest version that they declare is tried: the game only ever
/// loads the highest copy of a mod that it finds.
pub open spec fn dependency_resolves_to<K: Ord, R, O, N, V, C, P>(
    rules: VersionRules<O, N, V, C, P>,
    dep_id: Seq<char>,
    requesters: Seq<RequesterModel>,
    api_mod: ApiModModel<R>,
    packages: Seq<PackageModel>,
    game: Seq<char>,
    unstable: bool,
    release: Option<(Seq<char>, Seq<char>)>,
    notice: Option<NoticeModel>,
) -> bool where
    O: Fn(&str) -> bool,
    N: Fn(&str) -> Option<(u64, u64, u64)>,
    V: Fn(&str) -> Option<K>,
    C: Fn(&str, &str) -> String,
    P: Fn(&R, &Package, &str, bool) -> Pick,
 {
    let pin = pin_ignoring_case(packages, api_mod.known_id());
    exists|combined: Option<Seq<char>>, first: PickModel|
        {
            &&& #[trigger] required_by_all(
                rules.has_semver_operator,
                rules.parse_numbers,
                rules.combine_version_reqs,
                requesters,
                combined,
            )
            &&& #[trigger] picks_under(
                rules.combine_version_reqs,
                rules.parse_pinned_version,
                api_mod.releases,
                api_mod.known_id(),
                combined,
                pin,
                game,
                unstable,
                first,
            )
            &&& match first {
                Ok((version, url)) => release == Some((version, url)) && notice is None,
                Err(reason) => exists|highest: Option<int>| #[trigger]
                    highest_may_be::<K, V>(rules.parse_version, requesters, highest) && (if highest
                        is Some && requesters.len() > 1 {
                        highest_resolves_to(
                            rules,
                            dep_id,
                            requesters,
                            requesters[highest->0].required_version,
                            api_mod,
                            pin,
                            game,
                            unstable,
                            release,
                            notice,
                        )
                    } else {
                        release is None && notice == Some(incompatible_notice(dep_id, reason))
                    }),
            }
        }
}

/// Whether trying the highest version that is declared may come to `release` and say `notice`.
pub open spec fn highest_resolves_to<R, O, N, V, C, P>(
    rules: VersionRules<O, N, V, C, P>,
    dep_id: Seq<char>,
    requesters: Seq<RequesterModel>,
    declared: Seq<char>,
    api_mod: ApiModModel<R>,
    pin: Option<Seq<char>>,
    game: Seq<char>,
    unstable: bool,
    release: Option<(Seq<char>, Seq<char>)>,
    notice: Option<NoticeModel>,
) -> bool where
    O: Fn(&str) -> bool,
    N: Fn(&str) -> Option<(u64, u64, u64)>,
    C: Fn(&str, &str) -> String,
    P: Fn(&R, &Package, &str, bool) -> Pick,
 {
    exists|condition: Option<Seq<char>>, second: PickModel|
        {
            &&& #[trigger] requires_version(
                rules.has_semver_operator,
                rules.parse_numbers,
                declared,
                condition,
            )
            &&& #[trigger] picks_under(
                rules.combine_version_reqs,
                rules.parse_pinned_version,
                api_mod.releases,
                api_mod.known_id(),
                condition,
                pin,
                game,
                unstable,
                second,
            )
            &&& match second {
                Ok((version, url)) => release == Some((version, url)) && notice == Some(
                    highest_notice(dep_id, requesters, declared),
                ),
                Err(reason) => release is None && notice == Some(
                    incompatible_notice(dep_id, reason),
                ),
            }
        }
}

fn incompatible(dep_id: &str, reason: &str) -> (r: Notice)
    ensures
        r.deep_view() == incompatible_notice(dep_id@, reason@),
{
    let mut text = "Unable to locate compatible versions for ".to_owned();
    text.append(dep_id);
    text.append(" - ");
    text.append(reason);
    Notice { text, color: Color::Red }
}

fn highest_needed(dep_id: &str, requesters: &Vec<Requester>, version: &str) -> (r: Notice)
    ensures
        r.deep_view() == highest_notice(dep_id@, requesters.deep_view(), version@),
{
    let mut text = dep_id.to_owned();
    text.append(" is requested by multiple mods: (");
    text.append(wants(requesters).as_str());
    text.append("). Installing highest version needed: ");
    text.append(version);
    text.append(".");
    Notice { text, color: Color::Yellow }
}

/// Finds the release of a dependency that is to be installed, and says what there is to say
/// about it.
pub fn resolve_dependency<K: Ord, R, O, N, V, C, P>(
    dep_id: &str,
    requesters: &Vec<Requester>,
    api_mod: &ApiMod<R>,
    packages: &Vec<Package>,
    pinned_game_version: &str,
    allow_unstable: bool,
    rules: &VersionRules<O, N, V, C, P>,
) -> (r: (Option<(ModVersion, DownloadURL)>, Option<Notice>)) where
    O: Fn(&str) -> bool,
    N: Fn(&str) -> Option<(u64, u64, u64)>,
    V: Fn(&str) -> Option<K>,
    C: Fn(&str, &str) -> String,
    P: Fn(&R, &Package, &str, bool) -> Pick,

    requires
        usable::<K, R, O, N, V, C, P>(*rules),
    ensures
        dependency_resolves_to::<K, R, O, N, V, C, P>(
            *rules,
            dep_id@,
            requesters.deep_view(),
            api_mod.deep_view(),
            packages.deep_view(),
            pinned_game_version@,
            allow_unstable,
            r.0.deep_view(),
            r.1.deep_view(),
        ),
        r.0 matches Some(release) ==> is_release_of::<K, R, O, N, V, C, P>(
            *rules,
            requesters.deep_view(),
            api_mod.deep_view(),
            packages.deep_view(),
            pinned_game_version@,
            allow_unstable,
            release.0@,
            release.1@,
        ),
        r.0 is None ==> r.1 is Some,
{
    let mod_id = api_mod.known_id();
    let pin = find_pin_ignoring_case(packages, mod_id);
    let combined = combined_requirement(
        requesters,
        &rules.has_semver_operator,
        &rules.parse_numbers,
        &rules.combine_version_reqs,
    );
    let first = pick_under(
        api_mod,
        mod_id,
        as_text(&combined),
        &pin,
        pinned_game_version,
        allow_unstable,
        &rules.combine_version_reqs,
        &rules.parse_pinned_version,
    );
    let ghost site = api_mod.deep_view();
    let ghost pin_model = pin_ignoring_case(packages.deep_view(), site.known_id());
    assert(picks_under(
        rules.combine_version_reqs,
        rules.parse_pinned_version,
        site.releases,
        site.known_id(),
        combined.deep_view(),
        pin_model,
        pinned_game_version@,
        allow_unstable,
        pick_view(first),
    ));
    let r = match first {
        Ok((version, url)) => (Some((version, url)), None),
        Err(reason) => {
            let highest = highest_requester::<K, V>(requesters, &rules.parse_version);
            match highest {
                Some(i) if requesters.len() > 1 => {
                    let declared = requesters[i].required_version.as_str();
                    let condition = dependency_requirement(
                        declared,
                        &rules.has_semver_operator,
                        &rules.parse_numbers,
                    );
                    let second = pick_under(
                        api_mod,
                        mod_id,
                        as_text(&condition),
                        &pin,
                        pinned_game_version,
                        allow_unstable,
                        &rules.combine_version_reqs,
                        &rules.parse_pinned_version,
                    );
                    assert(picks_under(
                        rules.combine_version_reqs,
                        rules.parse_pinned_version,
                        site.releases,
                        site.known_id(),
                        condition.deep_view(),
                        pin_model,
                        pinned_game_version@,
                        allow_unstable,
                        pick_view(second),
                    ));
                    assert(declared@ == requesters.deep_view()[i as int].required_version);
                    match second {
                        Ok((version, url)) => (
                            Some((version, url)),
                            Some(highest_needed(dep_id, requesters, declared)),
                        ),
                        Err(reason) => (None, Some(incompatible(dep_id, reason.as_str()))),
                    }
                },
                _ => (None, Some(incompatible(dep_id, reason.as_str()))),
            }
        },
    };
    proof {
        law_pin_is_that_of_the_first_package(packages.deep_view(), site.known_id(), pin_model);
        law_dependency_release_is_picked::<K, R, O, N, V, C, P>(
            *rules,
            dep_id@,
            requesters.deep_view(),
            site,
            packages.deep_view(),
            pinned_game_version@,
            allow_unstable,
            r.0.deep_view(),
            r.1.deep_view(),
            site.known_id(),
            pin_model,
        );
    }
    r
}

} // verus!
