//! The single road from "these mod ids" to "these downloads".
//!
//! Base game filtering, the merging of requests and of config pins, version selection and the
//! collection of failures happen here and only here. The requests are prepared, the mods that
//! they name are looked up, and the requests are then resolved against what was found.

use crate::aliases::ModID;
use crate::answers::{answers, askable, combinable, pick_view, pickable, picks, Pick, PickModel};
use crate::install_manager::{
    as_text, conjoined, merge_condition, resolve_dep_version, ApiMod, ApiModModel, FailureModel,
    Install, InstallModel, InstallRequest, RequestModel, ResolveFailure, ResolveOptions,
};
use crate::keyed::ModMap;
use crate::package::{find_pin_ignoring_case, pin_ignoring_case, Package, PackageModel};
use crate::questions::{is_picked, law_pin_is_that_of_the_first_package, replies};
use crate::resolve_laws::{
    is_wanted, law_download_is_what_the_rule_picks, law_prepared_requests_are_wanted,
    lemma_install_is_an_outcome,
};
use crate::text::{lowercase, same_text, to_lowercase};
use vstd::prelude::*;

verus! {

/// The requests whose mod is not part of the base game.
pub open spec fn downloadable(requests: Seq<RequestModel>, base_game: Seq<bool>) -> Seq<RequestModel>
    decreases requests.len(),
{
    if requests.len() == 0 {
        Seq::empty()
    } else {
        let before = downloadable(requests.drop_last(), base_game.drop_last());
        if base_game.last() {
            before
        } else {
            before.push(requests.last())
        }
    }
}

/// The requests for one mod, whatever the case in which they spell its id.
pub open spec fn of_mod(requests: Seq<RequestModel>, key: Seq<char>) -> Seq<RequestModel>
    decreases requests.len(),
{
    if requests.len() == 0 {
        Seq::empty()
    } else {
        let before = of_mod(requests.drop_last(), key);
        if lowercase(requests.last().mod_id) == key {
            before.push(requests.last())
        } else {
            before
        }
    }
}

/// Whether `r` may be all of the conditions together, those that are absent left out.
pub open spec fn all_conjoined<C: Fn(&str, &str) -> String>(
    combine: C,
    conditions: Seq<Option<Seq<char>>>,
    r: Option<Seq<char>>,
) -> bool
    decreases conditions.len(),
{
    if conditions.len() == 0 {
        r == None::<Seq<char>>
    } else {
        exists|before: Option<Seq<char>>|
            all_conjoined(combine, conditions.drop_last(), before) && #[trigger] conjoined(
                combine,
                before,
                conditions.last(),
                r,
            )
    }
}

/// The first of the texts that is there.
pub open spec fn first_present(texts: Seq<Option<Seq<char>>>) -> Option<Seq<char>>
    decreases texts.len(),
{
    if texts.len() == 0 {
        None
    } else {
        match first_present(texts.drop_last()) {
            Some(text) => Some(text),
            None => texts.last(),
        }
    }
}

/// The conditions of the requests.
pub open spec fn version_reqs(requests: Seq<RequestModel>) -> Seq<Option<Seq<char>>> {
    requests.map_values(|request: RequestModel| request.version_req)
}

/// The fallbacks of the requests.
pub open spec fn fallback_reqs(requests: Seq<RequestModel>) -> Seq<Option<Seq<char>>> {
    requests.map_values(|request: RequestModel| request.fallback_req)
}

/// Whether `r` may stand for all requests for its mod: the first one's spelling, every condition,
/// and the first fallback.
pub open spec fn stands_for<C: Fn(&str, &str) -> String>(
    combine: C,
    requests: Seq<RequestModel>,
    r: RequestModel,
) -> bool {
    &&& requests.len() > 0
    &&& r.mod_id == requests[0].mod_id
    &&& all_conjoined(combine, version_reqs(requests), r.version_req)
    &&& r.fallback_req == first_present(fallback_reqs(requests))
}

/// Whether no two requests are for the same mod.
pub open spec fn one_per_mod(requests: Seq<RequestModel>) -> bool {
    forall|i: int, j: int|
        0 <= i < j < requests.len() ==> lowercase(#[trigger] requests[i].mod_id) != lowercase(
            #[trigger] requests[j].mod_id,
        )
}

/// Whether some request is for the mod.
pub open spec fn asks_for(requests: Seq<RequestModel>, key: Seq<char>) -> bool {
    exists|i: int| 0 <= i < requests.len() && lowercase(#[trigger] requests[i].mod_id) == key
}

/// Whether `r` may be what `requests` come down to: for each mod that is asked for one request,
/// which stands for all of them.
pub open spec fn merges_to<C: Fn(&str, &str) -> String>(
    combine: C,
    requests: Seq<RequestModel>,
    r: Seq<RequestModel>,
) -> bool {
    &&& one_per_mod(r)
    &&& forall|i: int|
        0 <= i < r.len() ==> stands_for(
            combine,
            of_mod(requests, lowercase(r[i].mod_id)),
            #[trigger] r[i],
        )
    &&& forall|i: int|
        0 <= i < requests.len() ==> asks_for(r, lowercase(#[trigger] requests[i].mod_id))
}

proof fn lemma_of_mod_push(requests: Seq<RequestModel>, request: RequestModel, key: Seq<char>)
    ensures
        of_mod(requests.push(request), key) == if lowercase(request.mod_id) == key {
            of_mod(requests, key).push(request)
        } else {
            of_mod(requests, key)
        },
{
    assert(requests.push(request).drop_last() =~= requests);
}

/// One more condition is conjoined to those before it.
pub proof fn lemma_all_conjoined_push<C: Fn(&str, &str) -> String>(
    combine: C,
    conditions: Seq<Option<Seq<char>>>,
    before: Option<Seq<char>>,
    condition: Option<Seq<char>>,
    r: Option<Seq<char>>,
)
    requires
        all_conjoined(combine, conditions, before),
        conjoined(combine, before, condition, r),
    ensures
        all_conjoined(combine, conditions.push(condition), r),
{
    let all = conditions.push(condition);
    assert(all.drop_last() =~= conditions);
    assert(all_conjoined(combine, all.drop_last(), before) && conjoined(
        combine,
        before,
        all.last(),
        r,
    ));
}

proof fn lemma_stands_for_push<C: Fn(&str, &str) -> String>(
    combine: C,
    group: Seq<RequestModel>,
    existing: RequestModel,
    request: RequestModel,
    version: Option<Seq<char>>,
)
    requires
        group.len() == 0 ==> existing.mod_id == request.mod_id && version == request.version_req
            && existing.fallback_req == request.fallback_req,
        group.len() > 0 ==> stands_for(combine, group, existing) && conjoined(
            combine,
            existing.version_req,
            request.version_req,
            version,
        ),
    ensures
        stands_for(
            combine,
            group.push(request),
            RequestModel {
                mod_id: existing.mod_id,
                version_req: version,
                fallback_req: match existing.fallback_req {
                    Some(text) => Some(text),
                    None => request.fallback_req,
                },
            },
        ),
{
    let all = group.push(request);
    assert(fallback_reqs(all).drop_last() =~= fallback_reqs(group));
    assert(fallback_reqs(all).last() == request.fallback_req);
    assert(version_reqs(all) =~= version_reqs(group).push(request.version_req));
    let before = if group.len() == 0 {
        None
    } else {
        existing.version_req
    };
    lemma_all_conjoined_push(combine, version_reqs(group), before, request.version_req, version);
}

/// Merges the requests for one mod into one, so that every condition has to hold.
pub fn merge_requests<C: Fn(&str, &str) -> String>(
    requests: Vec<InstallRequest>,
    combine_version_reqs: &C,
) -> (r: Vec<InstallRequest>)
    requires
        combinable(*combine_version_reqs),
    ensures
        merges_to(*combine_version_reqs, requests.deep_view(), r.deep_view()),
{
    let mut r: Vec<InstallRequest> = Vec::new();
    let mut keys: Vec<String> = Vec::new();
    let ghost all = requests.deep_view();
    for request in it: requests
        invariant
            combinable(*combine_version_reqs),
            it.seq() == requests@,
            all == requests.deep_view(),
            keys.len() == r.len(),
            forall|i: int|
                0 <= i < r.len() ==> #[trigger] keys[i]@ == lowercase(r.deep_view()[i].mod_id),
            merges_to(*combine_version_reqs, all.take(it.index()), r.deep_view()),
    {
        let ghost n = it.index();
        let ghost seen = all.take(n);
        let ghost before = r.deep_view();
        let ghost asked = request.deep_view();
        proof {
            assert(all[n] == asked);
            assert(all.take(n + 1) =~= seen.push(asked));
        }
        let key = to_lowercase(request.mod_id.as_str());
        let mut j: usize = 0;
        while j < keys.len() && !same_text(keys[j].as_str(), key.as_str())
            invariant
                j <= keys.len(),
                forall|i: int| 0 <= i < j ==> #[trigger] keys[i]@ != key@,
            decreases keys.len() - j,
        {
            j = j + 1;
        }
        proof {
            assert forall|k: Seq<char>| true implies #[trigger] of_mod(seen.push(asked), k) == (if key@
                == k {
                of_mod(seen, k).push(asked)
            } else {
                of_mod(seen, k)
            }) by {
                lemma_of_mod_push(seen, asked, k);
            }
        }
        if j < keys.len() {
            let version_req = merge_condition(
                as_text(&r[j].version_req),
                as_text(&request.version_req),
                combine_version_reqs,
            );
            let fallback_req = match &r[j].fallback_req {
                Some(text) => Some(text.clone()),
                None => request.fallback_req,
            };
            let mod_id = r[j].mod_id.clone();
            let merged = InstallRequest { mod_id, version_req, fallback_req };
            proof {
                assert(keys[j as int]@ == key@);
                assert(before[j as int] == r@[j as int].deep_view());
                lemma_stands_for_push(
                    *combine_version_reqs,
                    of_mod(seen, key@),
                    before[j as int],
                    asked,
                    version_req.deep_view(),
                );
            }
            r.set(j, merged);
            proof {
                let after = r.deep_view();
                assert(after =~= before.update(j as int, merged.deep_view()));
                assert(after[j as int].mod_id == before[j as int].mod_id);
                assert forall|i: int| 0 <= i < after.len() implies stands_for(
                    *combine_version_reqs,
                    of_mod(seen.push(asked), lowercase(after[i].mod_id)),
                    #[trigger] after[i],
                ) by {
                    assert(keys[i]@ == lowercase(before[i].mod_id));
                    if i != j {
                        assert(lowercase(before[i].mod_id) != lowercase(before[j as int].mod_id));
                        assert(stands_for(
                            *combine_version_reqs,
                            of_mod(seen, lowercase(before[i].mod_id)),
                            before[i],
                        ));
                    }
                }
                assert forall|i: int| 0 <= i < seen.push(asked).len() implies asks_for(
                    after,
                    lowercase(#[trigger] seen.push(asked)[i].mod_id),
                ) by {
                    if i < seen.len() {
                        assert(asks_for(before, lowercase(seen[i].mod_id)));
                        let k = choose|k: int|
                            0 <= k < before.len() && lowercase(#[trigger] before[k].mod_id)
                                == lowercase(seen[i].mod_id);
                        assert(after[k].mod_id == before[k].mod_id);
                    } else {
                        assert(lowercase(after[j as int].mod_id) == key@);
                    }
                }
                assert(one_per_mod(after)) by {
                    assert forall|a: int, b: int| 0 <= a < b < after.len() implies lowercase(
                        #[trigger] after[a].mod_id,
                    ) != lowercase(#[trigger] after[b].mod_id) by {
                        assert(after[a].mod_id == before[a].mod_id);
                        assert(after[b].mod_id == before[b].mod_id);
                    }
                }
            }
        } else {
            proof {
                assert(!asks_for(before, key@)) by {
                    if asks_for(before, key@) {
                        let k = choose|k: int|
                            0 <= k < before.len() && lowercase(#[trigger] before[k].mod_id) == key@;
                        assert(keys[k]@ == key@);
                    }
                }
                lemma_none_of_mod(seen, key@, before);
                assert(of_mod(seen, key@) =~= Seq::empty());
                lemma_stands_for_push(
                    *combine_version_reqs,
                    of_mod(seen, key@),
                    asked,
                    asked,
                    asked.version_req,
                );
            }
            keys.push(key);
            r.push(request);
            proof {
                let after = r.deep_view();
                assert(after =~= before.push(asked));
                assert forall|i: int| 0 <= i < after.len() implies stands_for(
                    *combine_version_reqs,
                    of_mod(seen.push(asked), lowercase(after[i].mod_id)),
                    #[trigger] after[i],
                ) by {
                    if i < before.len() {
                        assert(lowercase(before[i].mod_id) != key@);
                        assert(stands_for(
                            *combine_version_reqs,
                            of_mod(seen, lowercase(before[i].mod_id)),
                            before[i],
                        ));
                    }
                }
                assert forall|i: int| 0 <= i < seen.push(asked).len() implies asks_for(
                    after,
                    lowercase(#[trigger] seen.push(asked)[i].mod_id),
                ) by {
                    if i < seen.len() {
                        assert(asks_for(before, lowercase(seen[i].mod_id)));
                        let k = choose|k: int|
                            0 <= k < before.len() && lowercase(#[trigger] before[k].mod_id)
                                == lowercase(seen[i].mod_id);
                        assert(after[k].mod_id == before[k].mod_id);
                    } else {
                        assert(lowercase(after[before.len() as int].mod_id) == key@);
                    }
                }
            }
        }
    }
    assert(all.take(all.len() as int) =~= all);
    r
}

proof fn lemma_none_of_mod(requests: Seq<RequestModel>, key: Seq<char>, r: Seq<RequestModel>)
    requires
        forall|i: int|
            0 <= i < requests.len() ==> asks_for(r, lowercase(#[trigger] requests[i].mod_id)),
        !asks_for(r, key),
    ensures
        of_mod(requests, key).len() == 0,
    decreases requests.len(),
{
    if requests.len() > 0 {
        assert(asks_for(r, lowercase(requests[requests.len() - 1].mod_id)));
        let before = requests.drop_last();
        assert forall|i: int| 0 <= i < before.len() implies asks_for(
            r,
            lowercase(#[trigger] before[i].mod_id),
        ) by {
            assert(before[i] == requests[i]);
        }
        lemma_none_of_mod(before, key, r);
    }
}

/// Drops what is part of the base game, which nobody can download, and merges the requests for
/// one mod into one. `is_base_game_dep` tells whether a mod is part of the base game.
pub fn prepare_requests<B: Fn(&str) -> bool, C: Fn(&str, &str) -> String>(
    requests: Vec<InstallRequest>,
    is_base_game_dep: &B,
    combine_version_reqs: &C,
) -> (r: Vec<InstallRequest>)
    requires
        askable(*is_base_game_dep),
        combinable(*combine_version_reqs),
    ensures
        exists|base_game: Seq<bool>|
            #![trigger downloadable(requests.deep_view(), base_game)]
            {
                &&& base_game.len() == requests.len()
                &&& forall|i: int|
                    0 <= i < requests.len() ==> answers(
                        *is_base_game_dep,
                        requests.deep_view()[i].mod_id,
                        #[trigger] base_game[i],
                    )
                &&& merges_to(
                    *combine_version_reqs,
                    downloadable(requests.deep_view(), base_game),
                    r.deep_view(),
                )
            },
        forall|k: int|
            0 <= k < r.len() ==> is_wanted(
                *is_base_game_dep,
                requests.deep_view(),
                (#[trigger] r.deep_view()[k]).mod_id,
            ),
        forall|i: int|
            0 <= i < requests.len() ==> replies(
                *is_base_game_dep,
                (#[trigger] requests.deep_view()[i]).mod_id,
                true,
            ) || asks_for(r.deep_view(), lowercase(requests.deep_view()[i].mod_id)),
{
    let ghost all = requests.deep_view();
    let ghost mut base_game: Seq<bool> = Seq::empty();
    let mut kept: Vec<InstallRequest> = Vec::new();
    for request in it: requests
        invariant
            askable(*is_base_game_dep),
            it.seq() == requests@,
            all == requests.deep_view(),
            base_game.len() == it.index(),
            forall|i: int|
                0 <= i < base_game.len() ==> answers(
                    *is_base_game_dep,
                    all[i].mod_id,
                    #[trigger] base_game[i],
                ),
            kept.deep_view() == downloadable(all.take(it.index()), base_game),
    {
        let ghost n = it.index();
        let ghost before = base_game;
        let base = is_base_game_dep(request.mod_id.as_str());
        proof {
            assert(all[n] == request.deep_view());
            assert(answers(*is_base_game_dep, all[n].mod_id, base));
            base_game = before.push(base);
            assert(base_game.drop_last() =~= before);
            assert(all.take(n + 1).drop_last() =~= all.take(n));
        }
        let ghost so_far = kept.deep_view();
        if !base {
            kept.push(request);
            assert(kept.deep_view() =~= so_far.push(all[n]));
        }
    }
    assert(all.take(all.len() as int) =~= all);
    let r = merge_requests(kept, combine_version_reqs);
    proof {
        law_prepared_requests_are_wanted(
            *is_base_game_dep,
            *combine_version_reqs,
            all,
            base_game,
            r.deep_view(),
        );
    }
    r
}

/// The ids of the mods that are looked up, if there are any requests.
pub fn mods_to_look_up(requests: &Vec<InstallRequest>) -> (r: Option<Vec<ModID>>)
    ensures
        r.deep_view() == (if requests.len() == 0 {
            None
        } else {
            Some(requests.deep_view().map_values(|request: RequestModel| request.mod_id))
        }),
{
    if requests.len() == 0 {
        return None;
    }
    let mut ids: Vec<ModID> = Vec::new();
    let mut i: usize = 0;
    while i < requests.len()
        invariant
            i <= requests.len(),
            ids.len() == i,
            forall|j: int| 0 <= j < i ==> #[trigger] ids[j]@ == requests.deep_view()[j].mod_id,
        decreases requests.len() - i,
    {
        ids.push(requests[i].mod_id.clone());
        i = i + 1;
    }
    assert(ids.deep_view() =~= requests.deep_view().map_values(
        |request: RequestModel| request.mod_id,
    ));
    Some(ids)
}

/// A request and what became of it: a download, or why there is none.
pub type OutcomeModel = Result<InstallModel, FailureModel>;

/// The fresh install of a release that was picked for a mod.
pub open spec fn fresh_install<R>(
    mod_id: Seq<char>,
    api_mod: ApiModModel<R>,
    version: Seq<char>,
    url: Seq<char>,
) -> InstallModel {
    InstallModel {
        mod_id,
        mod_name: api_mod.display_name(),
        version_to_install: version,
        download_url: url,
        current_file_path: None,
    }
}

/// Whether the rules may pick `pick` for a mod of the site under one condition and the user's
/// pin.
pub open spec fn picks_under<
    R,
    C: Fn(&str, &str) -> String,
    P: Fn(&R, &Package, &str, bool) -> Pick,
>(
    combine: C,
    pick_rule: P,
    releases: R,
    mod_id: Seq<char>,
    condition: Option<Seq<char>>,
    pin: Option<Seq<char>>,
    game: Seq<char>,
    unstable: bool,
    pick: PickModel,
) -> bool {
    exists|wanted: Option<Seq<char>>| #[trigger]
        conjoined(combine, condition, pin, wanted) && picks(
            pick_rule,
            releases,
            PackageModel { mod_id, pinned_version: wanted },
            game,
            unstable,
            pick,
        )
}

/// Whether a request may come to `outcome`, given what the mod site has under its id and the
/// user's pin: the release that meets its condition, else the release that meets its fallback,
/// else the failure of the condition.
pub open spec fn resolves_to<
    R,
    C: Fn(&str, &str) -> String,
    P: Fn(&R, &Package, &str, bool) -> Pick,
>(
    combine: C,
    pick_rule: P,
    request: RequestModel,
    found: Option<ApiModModel<R>>,
    pin: Option<Seq<char>>,
    game: Seq<char>,
    unstable: bool,
    outcome: OutcomeModel,
) -> bool {
    match found {
        None => outcome == Err::<InstallModel, FailureModel>(
            FailureModel::NotFound(request.mod_id),
        ),
        Some(api_mod) => exists|first: PickModel| #[trigger]
            picks_under(
                combine,
                pick_rule,
                api_mod.releases,
                request.mod_id,
                request.version_req,
                pin,
                game,
                unstable,
                first,
            ) && match first {
                Ok((version, url)) => outcome == Ok::<InstallModel, FailureModel>(
                    fresh_install(lowercase(request.mod_id), api_mod, version, url),
                ),
                Err(reason) => {
                    let failure = FailureModel::NoMatchingVersion(request.mod_id, reason);
                    match request.fallback_req {
                        None => outcome == Err::<InstallModel, FailureModel>(failure),
                        Some(fallback) => exists|second: PickModel| #[trigger]
                            picks_under(
                                combine,
                                pick_rule,
                                api_mod.releases,
                                request.mod_id,
                                Some(fallback),
                                pin,
                                game,
                                unstable,
                                second,
                            ) && match second {
                                Ok((version, url)) => outcome == Ok::<InstallModel, FailureModel>(
                                    fresh_install(
                                        lowercase(request.mod_id),
                                        api_mod,
                                        version,
                                        url,
                                    ),
                                ),
                                Err(_) => outcome == Err::<InstallModel, FailureModel>(failure),
                            },
                    }
                },
            },
    }
}

/// The characters of an outcome.
pub open spec fn outcome_view(outcome: Result<Install, ResolveFailure>) -> OutcomeModel {
    match outcome {
        Ok(install) => Ok(install.deep_view()),
        Err(failure) => Err(failure.deep_view()),
    }
}

pub(crate) fn pick_under<R, C: Fn(&str, &str) -> String, P: Fn(&R, &Package, &str, bool) -> Pick>(
    api_mod: &ApiMod<R>,
    mod_id: &str,
    condition: Option<&str>,
    pin: &Option<String>,
    game: &str,
    unstable: bool,
    combine_version_reqs: &C,
    parse_pinned_version: &P,
) -> (r: Pick)
    requires
        combinable(*combine_version_reqs),
        pickable::<R, P>(*parse_pinned_version),
    ensures
        picks_under(
            *combine_version_reqs,
            *parse_pinned_version,
            api_mod.releases,
            mod_id@,
            condition.deep_view(),
            pin.deep_view(),
            game@,
            unstable,
            pick_view(r),
        ),
{
    let wanted = merge_condition(condition, as_text(pin), combine_version_reqs);
    resolve_dep_version(api_mod, mod_id, wanted, game, unstable, parse_pinned_version)
}

/// Resolves one request against what the mod site has under its id.
pub fn resolve_request<R, C: Fn(&str, &str) -> String, P: Fn(&R, &Package, &str, bool) -> Pick>(
    request: InstallRequest,
    found: Option<&ApiMod<R>>,
    pin: &Option<String>,
    pinned_game_version: &str,
    allow_unstable: bool,
    combine_version_reqs: &C,
    parse_pinned_version: &P,
) -> (r: Result<Install, ResolveFailure>)
    requires
        combinable(*combine_version_reqs),
        pickable::<R, P>(*parse_pinned_version),
    ensures
        resolves_to(
            *combine_version_reqs,
            *parse_pinned_version,
            request.deep_view(),
            found.deep_view(),
            pin.deep_view(),
            pinned_game_version@,
            allow_unstable,
            outcome_view(r),
        ),
{
    let api_mod = match found {
        Some(api_mod) => api_mod,
        None => {
            return Err(ResolveFailure::NotFound(request.mod_id));
        },
    };
    let first = pick_under(
        api_mod,
        request.mod_id.as_str(),
        as_text(&request.version_req),
        pin,
        pinned_game_version,
        allow_unstable,
        combine_version_reqs,
        parse_pinned_version,
    );
    let ghost asked = request.deep_view();
    let ghost site = api_mod.deep_view();
    assert(found.deep_view() == Some(site));
    assert(picks_under(
        *combine_version_reqs,
        *parse_pinned_version,
        site.releases,
        asked.mod_id,
        asked.version_req,
        pin.deep_view(),
        pinned_game_version@,
        allow_unstable,
        pick_view(first),
    ));
    let (version_to_install, download_url) = match first {
        Ok(release) => release,
        Err(reason) => {
            // the exact build they named may simply be gone, so try what they'll settle for
            match &request.fallback_req {
                None => {
                    assert(asked.fallback_req is None);
                    return Err(ResolveFailure::NoMatchingVersion(request.mod_id, reason));
                },
                Some(fallback) => {
                    let second = pick_under(
                        api_mod,
                        request.mod_id.as_str(),
                        Some(fallback.as_str()),
                        pin,
                        pinned_game_version,
                        allow_unstable,
                        combine_version_reqs,
                        parse_pinned_version,
                    );
                    match second {
                        Ok(release) => release,
                        Err(_) => {
                            return Err(ResolveFailure::NoMatchingVersion(request.mod_id, reason));
                        },
                    }
                },
            }
        },
    };
    Ok(
        Install {
            mod_id: to_lowercase(request.mod_id.as_str()),
            mod_name: api_mod.display_name(),
            version_to_install,
            download_url,
            current_file_path: None,
        },
    )
}

/// The downloads among the outcomes, in their order.
pub open spec fn installs_of(outcomes: Seq<OutcomeModel>) -> Seq<InstallModel>
    decreases outcomes.len(),
{
    if outcomes.len() == 0 {
        Seq::empty()
    } else {
        let before = installs_of(outcomes.drop_last());
        match outcomes.last() {
            Ok(install) => before.push(install),
            Err(_) => before,
        }
    }
}

/// The failures among the outcomes, in their order.
pub open spec fn failures_of(outcomes: Seq<OutcomeModel>) -> Seq<FailureModel>
    decreases outcomes.len(),
{
    if outcomes.len() == 0 {
        Seq::empty()
    } else {
        let before = failures_of(outcomes.drop_last());
        match outcomes.last() {
            Ok(_) => before,
            Err(failure) => before.push(failure),
        }
    }
}

/// What a map has under a key.
pub open spec fn lookup<V>(map: Map<Seq<char>, V>, key: Seq<char>) -> Option<V> {
    if map.contains_key(key) {
        Some(map[key])
    } else {
        None
    }
}

/// The pin that is applied to a mod: the user's, unless the options say to pass over it.
pub open spec fn applied_pin(
    options: ResolveOptions,
    packages: Seq<PackageModel>,
    mod_id: Seq<char>,
) -> Option<Seq<char>> {
    if options.apply_config_pins {
        pin_ignoring_case(packages, mod_id)
    } else {
        None
    }
}

/// Whether the requests may come to these outcomes, each on its own.
pub open spec fn outcomes_may_be<
    R,
    C: Fn(&str, &str) -> String,
    P: Fn(&R, &Package, &str, bool) -> Pick,
>(
    combine: C,
    pick_rule: P,
    requests: Seq<RequestModel>,
    found: Map<Seq<char>, ApiModModel<R>>,
    options: ResolveOptions,
    packages: Seq<PackageModel>,
    outcomes: Seq<OutcomeModel>,
) -> bool {
    &&& outcomes.len() == requests.len()
    &&& forall|i: int|
        0 <= i < requests.len() ==> resolves_to(
            combine,
            pick_rule,
            requests[i],
            lookup(found, requests[i].mod_id),
            applied_pin(options, packages, requests[i].mod_id),
            options.pinned_game_version@,
            options.allow_unstable,
            #[trigger] outcomes[i],
        )
}

/// Resolves the requests against what the mod site has under their ids. Hands back what could be
/// resolved plus why the rest didn't make it. Nothing is fatal, one bad mod never stops the
/// others.
pub fn resolve_requests<R, C: Fn(&str, &str) -> String, P: Fn(&R, &Package, &str, bool) -> Pick>(
    requests: Vec<InstallRequest>,
    api_results: &ModMap<ApiMod<R>>,
    packages: &Vec<Package>,
    options: &ResolveOptions,
    combine_version_reqs: &C,
    parse_pinned_version: &P,
) -> (r: (Vec<Install>, Vec<ResolveFailure>))
    requires
        combinable(*combine_version_reqs),
        pickable::<R, P>(*parse_pinned_version),
    ensures
        exists|outcomes: Seq<OutcomeModel>|
            {
                &&& #[trigger] outcomes_may_be(
                    *combine_version_reqs,
                    *parse_pinned_version,
                    requests.deep_view(),
                    api_results@,
                    *options,
                    packages.deep_view(),
                    outcomes,
                )
                &&& r.0.deep_view() == installs_of(outcomes)
                &&& r.1.deep_view() == failures_of(outcomes)
            },
        r.0.len() + r.1.len() == requests.len(),
        forall|k: int|
            0 <= k < r.0.len() ==> is_picked(
                *parse_pinned_version,
                requests.deep_view(),
                api_results@,
                options.pinned_game_version@,
                options.allow_unstable,
                #[trigger] r.0.deep_view()[k],
            ),
{
    let ghost all = requests.deep_view();
    let ghost mut outcomes: Seq<OutcomeModel> = Seq::empty();
    let mut installs: Vec<Install> = Vec::new();
    let mut failures: Vec<ResolveFailure> = Vec::new();
    for request in it: requests
        invariant
            combinable(*combine_version_reqs),
            pickable::<R, P>(*parse_pinned_version),
            it.seq() == requests@,
            all == requests.deep_view(),
            outcomes.len() == it.index(),
            forall|i: int|
                0 <= i < outcomes.len() ==> resolves_to(
                    *combine_version_reqs,
                    *parse_pinned_version,
                    all[i],
                    lookup(api_results@, all[i].mod_id),
                    applied_pin(*options, packages.deep_view(), all[i].mod_id),
                    options.pinned_game_version@,
                    options.allow_unstable,
                    #[trigger] outcomes[i],
                ),
            installs.deep_view() == installs_of(outcomes),
            failures.deep_view() == failures_of(outcomes),
    {
        let ghost n = it.index();
        assert(all[n] == request.deep_view());
        let found = api_results.get(request.mod_id.as_str());
        let pin = if options.apply_config_pins {
            find_pin_ignoring_case(packages, request.mod_id.as_str())
        } else {
            None
        };
        let outcome = resolve_request(
            request,
            found,
            &pin,
            options.pinned_game_version.as_str(),
            options.allow_unstable,
            combine_version_reqs,
            parse_pinned_version,
        );
        let ghost before = outcomes;
        let ghost old_installs = installs.deep_view();
        let ghost old_failures = failures.deep_view();
        proof {
            outcomes = before.push(outcome_view(outcome));
            assert(outcomes.drop_last() =~= before);
        }
        match outcome {
            Ok(install) => {
                installs.push(install);
                assert(installs.deep_view() =~= old_installs.push(install.deep_view()));
            },
            Err(failure) => {
                failures.push(failure);
                assert(failures.deep_view() =~= old_failures.push(failure.deep_view()));
            },
        }
    }
    assert(outcomes_may_be(
        *combine_version_reqs,
        *parse_pinned_version,
        all,
        api_results@,
        *options,
        packages.deep_view(),
        outcomes,
    ));
    proof {
        law_every_request_answered(outcomes);
        assert forall|k: int| 0 <= k < installs.len() implies is_picked(
            *parse_pinned_version,
            all,
            api_results@,
            options.pinned_game_version@,
            options.allow_unstable,
            #[trigger] installs.deep_view()[k],
        ) by {
            let j = lemma_install_is_an_outcome(outcomes, k);
            let pin = applied_pin(*options, packages.deep_view(), all[j].mod_id);
            law_pin_is_that_of_the_first_package(packages.deep_view(), all[j].mod_id, pin);
            law_download_is_what_the_rule_picks(
                *combine_version_reqs,
                *parse_pinned_version,
                all,
                api_results@,
                *options,
                packages.deep_view(),
                outcomes,
                j,
                pin,
            );
        }
    }
    (installs, failures)
}

/// Every request is answered once: there are as many downloads and failures together as
/// requests.
pub proof fn law_every_request_answered(outcomes: Seq<OutcomeModel>)
    ensures
        installs_of(outcomes).len() + failures_of(outcomes).len() == outcomes.len(),
    decreases outcomes.len(),
{
    if outcomes.len() > 0 {
        law_every_request_answered(outcomes.drop_last());
    }
}

/// One bad mod never stops the others: what becomes of the requests before and after it is the
/// same as without it.
pub proof fn law_one_failure_stops_nothing(
    before: Seq<OutcomeModel>,
    failure: FailureModel,
    after: Seq<OutcomeModel>,
)
    ensures
        installs_of(before.push(Err(failure)) + after) == installs_of(before + after),
    decreases after.len(),
{
    if after.len() == 0 {
        assert(before.push(Err(failure)) + after =~= before.push(Err(failure)));
        assert(before + after =~= before);
        assert(before.push(Err(failure)).drop_last() =~= before);
    } else {
        law_one_failure_stops_nothing(before, failure, after.drop_last());
        assert((before.push(Err(failure)) + after).drop_last() =~= before.push(Err(failure))
            + after.drop_last());
        assert((before + after).drop_last() =~= before + after.drop_last());
    }
}

proof fn lemma_of_mod_members(requests: Seq<RequestModel>, key: Seq<char>)
    ensures
        forall|i: int|
            0 <= i < of_mod(requests, key).len() ==> requests.contains(
                #[trigger] of_mod(requests, key)[i],
            ) && lowercase(of_mod(requests, key)[i].mod_id) == key,
    decreases requests.len(),
{
    if requests.len() > 0 {
        let rest = requests.drop_last();
        lemma_of_mod_members(rest, key);
        let group = of_mod(requests, key);
        assert forall|i: int| 0 <= i < group.len() implies requests.contains(#[trigger] group[i])
            && lowercase(group[i].mod_id) == key by {
            if i < of_mod(rest, key).len() {
                assert(group[i] == of_mod(rest, key)[i]);
                let j = choose|j: int| 0 <= j < rest.len() && rest[j] == group[i];
                assert(requests[j] == group[i]);
            } else {
                assert(requests[requests.len() - 1] == group[i]);
            }
        }
    }
}

/// A mod that nobody asked for is never installed, and every mod that was asked for is looked
/// for: the merged requests name the same mods as the requests that they stand for.
pub proof fn law_merging_keeps_the_mods<C: Fn(&str, &str) -> String>(
    combine: C,
    requests: Seq<RequestModel>,
    r: Seq<RequestModel>,
    key: Seq<char>,
)
    requires
        merges_to(combine, requests, r),
    ensures
        asks_for(requests, key) <==> asks_for(r, key),
{
    if asks_for(requests, key) {
        let i = choose|i: int|
            0 <= i < requests.len() && lowercase(#[trigger] requests[i].mod_id) == key;
        assert(asks_for(r, lowercase(requests[i].mod_id)));
    }
    if asks_for(r, key) {
        let i = choose|i: int| 0 <= i < r.len() && lowercase(#[trigger] r[i].mod_id) == key;
        assert(stands_for(combine, of_mod(requests, key), r[i]));
        lemma_of_mod_members(requests, key);
        let first = of_mod(requests, key)[0];
        assert(requests.contains(first));
        let j = choose|j: int| 0 <= j < requests.len() && requests[j] == first;
        assert(lowercase(requests[j].mod_id) == key);
    }
}

/// A mod of the base game is never asked for: every request that is left was answered not to be
/// one.
pub proof fn law_base_game_never_asked_for(requests: Seq<RequestModel>, base_game: Seq<bool>)
    requires
        base_game.len() == requests.len(),
    ensures
        forall|k: int|
            0 <= k < downloadable(requests, base_game).len() ==> exists|i: int|
                0 <= i < requests.len() && requests[i] == #[trigger] downloadable(
                    requests,
                    base_game,
                )[k] && !base_game[i],
    decreases requests.len(),
{
    if requests.len() > 0 {
        let rest = requests.drop_last();
        let rest_base = base_game.drop_last();
        law_base_game_never_asked_for(rest, rest_base);
        let kept = downloadable(requests, base_game);
        let before = downloadable(rest, rest_base);
        assert forall|k: int| 0 <= k < kept.len() implies exists|i: int|
            0 <= i < requests.len() && requests[i] == #[trigger] kept[k] && !base_game[i] by {
            if k < before.len() {
                assert(kept[k] == before[k]);
                let i = choose|i: int|
                    0 <= i < rest.len() && rest[i] == before[k] && !rest_base[i];
                assert(requests[i] == kept[k] && !base_game[i]);
            } else {
                let i = requests.len() - 1;
                assert(requests[i] == kept[k] && !base_game[i]);
            }
        }
    }
}

} // verus!
