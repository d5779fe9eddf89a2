//! What holds of the release that is settled on for a dependency.

use crate::answers::{answers, pick_view, Pick, PickModel};
use crate::dependencies::{
    dependency_resolves_to, highest_may_be, highest_notice, highest_resolves_to,
    incompatible_notice, is_highest, ordered_lawfully, required_by_all, want, RequesterModel,
    VersionRules,
};
use crate::install_manager::{conjoined, requires_version, same_minor, ApiModModel};
use crate::messages::{Color, NoticeModel};
use crate::package::{Package, PackageModel};
use crate::questions::{
    answered, answered_under, asks_both, known_as, law_conjoined_asks_both,
    law_pick_answers_the_question, law_pin_is_that_of_the_first_package, pinned_to,
};
use crate::resolve_installs::{all_conjoined, picks_under};
use crate::text::{decimal, joined, trimmed};
use vstd::prelude::*;
use vstd::std_specs::cmp::OrdSpec;

verus! {

/// What a declared version asks for: nothing where it is blank or `*`, itself without white space
/// around it where the operator rule says yes, and where that says no, any patch of its major and
/// minor version if the number rule can parse it, and nothing if it cannot.
pub proof fn law_declared_version_asks_for<
    O: Fn(&str) -> bool,
    N: Fn(&str) -> Option<(u64, u64, u64)>,
>(has_operator: O, numbers: N, declared: Seq<char>, r: Option<Seq<char>>)
    requires
        requires_version(has_operator, numbers, declared, r),
    ensures
        trimmed(declared).len() == 0 || trimmed(declared) == "*"@ ==> r is None,
        r is Some ==> {
            ||| r == Some(trimmed(declared)) && exists|x: &str|
                x@ == trimmed(declared) && #[trigger] call_ensures(has_operator, (x,), true)
            ||| exists|x: &str, major: u64, minor: u64, patch: u64|
                {
                    &&& x@ == trimmed(declared)
                    &&& #[trigger] call_ensures(numbers, (x,), Some((major, minor, patch)))
                    &&& r == Some(
                        "~"@ + decimal(major as nat) + "."@ + decimal(minor as nat) + "."@
                            + decimal(patch as nat),
                    )
                } && exists|y: &str| y@ == trimmed(declared) && #[trigger] call_ensures(
                has_operator,
                (y,),
                false,
            )
        },
        r is None && trimmed(declared).len() > 0 && trimmed(declared) != "*"@ ==> exists|x: &str|
            x@ == trimmed(declared) && #[trigger] call_ensures(numbers, (x,), None),
        r is None && trimmed(declared).len() > 0 && trimmed(declared) != "*"@ ==> exists|x: &str|
            x@ == trimmed(declared) && #[trigger] call_ensures(has_operator, (x,), false),
{
    let version = trimmed(declared);
    if version.len() > 0 && version != "*"@ {
        if answers(has_operator, version, true) && r == Some(version) {
        } else {
            let parsed = choose|parsed: Option<(u64, u64, u64)>| #[trigger]
                answers(numbers, version, parsed) && r == match parsed {
                    Some((major, minor, patch)) => Some(same_minor(major, minor, patch)),
                    None => None,
                };
            let x = choose|x: &str| x@ == version && #[trigger] call_ensures(numbers, (x,), parsed);
            if let Some((major, minor, patch)) = parsed {
                assert(call_ensures(numbers, (x,), Some((major, minor, patch))));
            }
        }
    }
}

/// Everyone who asks gets a say: no one requires nothing, and one more requester adds what it
/// declares to what the others require, by asking for both.
pub proof fn law_requirements_add_up<O, N, C>(
    has_operator: O,
    numbers: N,
    combine: C,
    requesters: Seq<RequesterModel>,
    r: Option<Seq<char>>,
) where
    O: Fn(&str) -> bool,
    N: Fn(&str) -> Option<(u64, u64, u64)>,
    C: Fn(&str, &str) -> String,

    requires
        required_by_all(has_operator, numbers, combine, requesters, r),
    ensures
        requesters.len() == 0 ==> r is None,
        requesters.len() > 0 ==> exists|before: Option<Seq<char>>, own: Option<Seq<char>>|
            {
                &&& #[trigger] required_by_all(
                    has_operator,
                    numbers,
                    combine,
                    requesters.drop_last(),
                    before,
                )
                &&& #[trigger] requires_version(
                    has_operator,
                    numbers,
                    requesters.last().required_version,
                    own,
                )
                &&& asks_both(combine, before, own, r)
            },
{
    let conditions = choose|conditions: Seq<Option<Seq<char>>>|
        {
            &&& conditions.len() == requesters.len()
            &&& forall|i: int|
                0 <= i < requesters.len() ==> requires_version(
                    has_operator,
                    numbers,
                    requesters[i].required_version,
                    #[trigger] conditions[i],
                )
            &&& #[trigger] all_conjoined(combine, conditions, r)
        };
    if requesters.len() > 0 {
        let rest = conditions.drop_last();
        let before = choose|before: Option<Seq<char>>|
            all_conjoined(combine, rest, before) && #[trigger] conjoined(
                combine,
                before,
                conditions.last(),
                r,
            );
        law_conjoined_asks_both(combine, before, conditions.last(), r);
        assert forall|i: int| 0 <= i < rest.len() implies requires_version(
            has_operator,
            numbers,
            requesters.drop_last()[i].required_version,
            #[trigger] rest[i],
        ) by {
            assert(rest[i] == conditions[i]);
        }
        assert(all_conjoined(combine, rest, before));
        assert(required_by_all(has_operator, numbers, combine, requesters.drop_last(), before));
        assert(conditions.last() == conditions[requesters.len() - 1]);
        assert(requires_version(
            has_operator,
            numbers,
            requesters.last().required_version,
            conditions.last(),
        ));
    }
}

/// Where nobody declares more than a blank or a `*`, nothing is required.
pub proof fn law_wildcards_require_nothing<O, N, C>(
    has_operator: O,
    numbers: N,
    combine: C,
    requesters: Seq<RequesterModel>,
    r: Option<Seq<char>>,
) where
    O: Fn(&str) -> bool,
    N: Fn(&str) -> Option<(u64, u64, u64)>,
    C: Fn(&str, &str) -> String,

    requires
        required_by_all(has_operator, numbers, combine, requesters, r),
        forall|i: int|
            0 <= i < requesters.len() ==> trimmed((#[trigger] requesters[i]).required_version).len()
                == 0 || trimmed(requesters[i].required_version) == "*"@,
    ensures
        r is None,
    decreases requesters.len(),
{
    law_requirements_add_up(has_operator, numbers, combine, requesters, r);
    if requesters.len() > 0 {
        let (before, own) = choose|before: Option<Seq<char>>, own: Option<Seq<char>>|
            {
                &&& #[trigger] required_by_all(
                    has_operator,
                    numbers,
                    combine,
                    requesters.drop_last(),
                    before,
                )
                &&& #[trigger] requires_version(
                    has_operator,
                    numbers,
                    requesters.last().required_version,
                    own,
                )
                &&& asks_both(combine, before, own, r)
            };
        assert forall|i: int| 0 <= i < requesters.drop_last().len() implies trimmed(
            (#[trigger] requesters.drop_last()[i]).required_version,
        ).len() == 0 || trimmed(requesters.drop_last()[i].required_version) == "*"@ by {
            assert(requesters[i] == requesters.drop_last()[i]);
        }
        law_wildcards_require_nothing(
            has_operator,
            numbers,
            combine,
            requesters.drop_last(),
            before,
        );
        assert(requesters.last() == requesters[requesters.len() - 1]);
        law_declared_version_asks_for(
            has_operator,
            numbers,
            requesters.last().required_version,
            own,
        );
    }
}

/// The highest requester declares a version that can be parsed, no one declares a higher one, and
/// no one after it an equally high one. There is none only where no version can be parsed. `p` is
/// what the parsing rule answers.
pub proof fn law_highest_is_highest<K: Ord, V: Fn(&str) -> Option<K>>(
    parse: V,
    p: spec_fn(Seq<char>) -> Option<K>,
    requesters: Seq<RequesterModel>,
    highest: Option<int>,
)
    requires
        ordered_lawfully::<K>(),
        forall|s: Seq<char>, r: Option<K>| #[trigger] answers(parse, s, r) ==> r == p(s),
        highest_may_be::<K, V>(parse, requesters, highest),
    ensures
        highest is None ==> forall|j: int|
            0 <= j < requesters.len() ==> p((#[trigger] requesters[j]).required_version) is None,
        highest is Some ==> {
            let i = highest->0;
            &&& 0 <= i < requesters.len()
            &&& p(requesters[i].required_version) is Some
            &&& forall|j: int|
                0 <= j < requesters.len() && p((#[trigger] requesters[j]).required_version) is Some
                    ==> {
                    let other = p(requesters[j].required_version)->0;
                    let top = p(requesters[i].required_version)->0;
                    &&& other.cmp_spec(&top) != core::cmp::Ordering::Greater
                    &&& j > i ==> top.cmp_spec(&other) == core::cmp::Ordering::Greater
                }
        },
{
    let versions = choose|versions: Seq<Option<K>>|
        {
            &&& versions.len() == requesters.len()
            &&& forall|i: int|
                0 <= i < requesters.len() ==> answers(
                    parse,
                    requesters[i].required_version,
                    #[trigger] versions[i],
                )
            &&& #[trigger] is_highest(versions, highest)
        };
    assert forall|j: int| 0 <= j < requesters.len() implies p(
        (#[trigger] requesters[j]).required_version,
    ) == versions[j] by {
        assert(answers(parse, requesters[j].required_version, versions[j]));
    }
}

/// Whether `required` may be what counts of the requesters' versions: what all of them together
/// require, or, where there are several, what the one with the highest version requires.
pub open spec fn demanded<K: Ord, O, N, V, C, P>(
    rules: VersionRules<O, N, V, C, P>,
    requesters: Seq<RequesterModel>,
    required: Option<Seq<char>>,
) -> bool where
    O: Fn(&str) -> bool,
    N: Fn(&str) -> Option<(u64, u64, u64)>,
    V: Fn(&str) -> Option<K>,
    C: Fn(&str, &str) -> String,
 {
    ||| required_by_all(
        rules.has_semver_operator,
        rules.parse_numbers,
        rules.combine_version_reqs,
        requesters,
        required,
    )
    ||| requesters.len() > 1 && exists|i: int| #[trigger]
        highest_may_be::<K, V>(rules.parse_version, requesters, Some(i)) && requires_version(
            rules.has_semver_operator,
            rules.parse_numbers,
            requesters[i].required_version,
            required,
        )
}

/// Whether `version` and `url` are the rule's answer to a question about the mod under the id by
/// which the site knows it, for this game version, that asks for both what the requesters demand
/// and what the user's packages pin the mod to.
pub open spec fn is_release_of<K: Ord, R, O, N, V, C, P>(
    rules: VersionRules<O, N, V, C, P>,
    requesters: Seq<RequesterModel>,
    api_mod: ApiModModel<R>,
    packages: Seq<PackageModel>,
    game: Seq<char>,
    unstable: bool,
    version: Seq<char>,
    url: Seq<char>,
) -> bool where
    O: Fn(&str) -> bool,
    N: Fn(&str) -> Option<(u64, u64, u64)>,
    V: Fn(&str) -> Option<K>,
    C: Fn(&str, &str) -> String,
    P: Fn(&R, &Package, &str, bool) -> Pick,
 {
    exists|
        known_id: Seq<char>,
        pin: Option<Seq<char>>,
        required: Option<Seq<char>>,
        answer: Pick,
    |
        {
            &&& known_as(api_mod, known_id)
            &&& pinned_to(packages, known_id, pin)
            &&& demanded::<K, O, N, V, C, P>(rules, requesters, required)
            &&& #[trigger] answered_under(
                rules.combine_version_reqs,
                rules.parse_pinned_version,
                api_mod.releases,
                known_id,
                required,
                pin,
                game,
                unstable,
                answer,
            )
            &&& answer is Ok
            &&& answer->Ok_0.0@ == version
            &&& answer->Ok_0.1@ == url
        }
}

proof fn lemma_picked_under<R, C, P>(
    combine: C,
    rule: P,
    releases: R,
    mod_id: Seq<char>,
    condition: Option<Seq<char>>,
    pin: Option<Seq<char>>,
    game: Seq<char>,
    unstable: bool,
    pick: PickModel,
) -> (answer: Pick) where
    C: Fn(&str, &str) -> String,
    P: Fn(&R, &Package, &str, bool) -> Pick,

    requires
        picks_under(combine, rule, releases, mod_id, condition, pin, game, unstable, pick),
    ensures
        answered_under(combine, rule, releases, mod_id, condition, pin, game, unstable, answer),
        pick_view(answer) == pick,
{
    law_pick_answers_the_question(
        combine,
        rule,
        releases,
        mod_id,
        condition,
        pin,
        game,
        unstable,
        pick,
    );
    let (wanted, answer) = choose|wanted: Option<Seq<char>>, answer: Pick|
        {
            &&& asks_both(combine, condition, pin, wanted)
            &&& #[trigger] answered(rule, releases, mod_id, wanted, game, unstable, answer)
            &&& match pick {
                Ok((version, url)) => answer is Ok && answer->Ok_0.0@ == version
                    && answer->Ok_0.1@ == url,
                Err(reason) => answer is Err && answer->Err_0@ == reason,
            }
        };
    assert(asks_both(combine, condition, pin, wanted));
    assert(pick_view(answer) == pick);
    answer
}

/// The release of a dependency is what the rule picks. Nothing but the rule's answer to what all
/// requesters together require, with the user's pin, decides where the rule has one, and then there
/// is nothing to say. Where the rule refuses that, the user is told, and a release is what the rule
/// answers to what the requester with the highest version requires, with the same pin. There is no
/// release only where the rule refuses that as well, or where no version can be compared or there
/// is a single requester, and the user is told the last reason.
pub proof fn law_dependency_release_is_picked<K: Ord, R, O, N, V, C, P>(
    rules: VersionRules<O, N, V, C, P>,
    dep_id: Seq<char>,
    requesters: Seq<RequesterModel>,
    api_mod: ApiModModel<R>,
    packages: Seq<PackageModel>,
    game: Seq<char>,
    unstable: bool,
    release: Option<(Seq<char>, Seq<char>)>,
    notice: Option<NoticeModel>,
    known_id: Seq<char>,
    pin: Option<Seq<char>>,
) where
    O: Fn(&str) -> bool,
    N: Fn(&str) -> Option<(u64, u64, u64)>,
    V: Fn(&str) -> Option<K>,
    C: Fn(&str, &str) -> String,
    P: Fn(&R, &Package, &str, bool) -> Pick,

    requires
        dependency_resolves_to::<K, R, O, N, V, C, P>(
            rules,
            dep_id,
            requesters,
            api_mod,
            packages,
            game,
            unstable,
            release,
            notice,
        ),
        known_as(api_mod, known_id),
        pinned_to(packages, known_id, pin),
    ensures
        release is Some ==> is_release_of::<K, R, O, N, V, C, P>(
            rules,
            requesters,
            api_mod,
            packages,
            game,
            unstable,
            (release->0).0,
            (release->0).1,
        ),
        release is None ==> notice is Some && notice->0.color == Color::Red,
        exists|required: Option<Seq<char>>, first: Pick|
            {
                &&& required_by_all(
                    rules.has_semver_operator,
                    rules.parse_numbers,
                    rules.combine_version_reqs,
                    requesters,
                    required,
                )
                &&& #[trigger] answered_under(
                    rules.combine_version_reqs,
                    rules.parse_pinned_version,
                    api_mod.releases,
                    known_id,
                    required,
                    pin,
                    game,
                    unstable,
                    first,
                )
                &&& first is Ok <==> notice is None
                &&& first is Ok ==> release == Some((first->Ok_0.0@, first->Ok_0.1@))
                &&& release is None && requesters.len() <= 1 ==> notice->0.text
                    == "Unable to locate compatible versions for "@ + dep_id + " - "@
                    + first->Err_0@
            },
        notice is Some && release is Some ==> requesters.len() > 1,
        notice is Some && requesters.len() > 1 ==> {
            ||| release is None && highest_may_be::<K, V>(rules.parse_version, requesters, None)
            ||| exists|i: int, required: Option<Seq<char>>, second: Pick|
                {
                    &&& #[trigger] highest_may_be::<K, V>(rules.parse_version, requesters, Some(i))
                    &&& requires_version(
                        rules.has_semver_operator,
                        rules.parse_numbers,
                        requesters[i].required_version,
                        required,
                    )
                    &&& #[trigger] answered_under(
                        rules.combine_version_reqs,
                        rules.parse_pinned_version,
                        api_mod.releases,
                        known_id,
                        required,
                        pin,
                        game,
                        unstable,
                        second,
                    )
                    &&& match second {
                        Ok((version, url)) => {
                            &&& release == Some((version@, url@))
                            &&& notice->0.color == Color::Yellow
                            &&& notice->0.text == dep_id + " is requested by multiple mods: ("@
                                + joined(
                                requesters.map_values(
                                    |r: RequesterModel|
                                        r.mod_id + " wants "@ + r.required_version,
                                ),
                                ", "@,
                            ) + "). Installing highest version needed: "@
                                + requesters[i].required_version + "."@
                        },
                        Err(reason) => release is None && notice->0.text
                            == "Unable to locate compatible versions for "@ + dep_id + " - "@
                            + reason@,
                    }
                }
        },
{
    assert(api_mod.known_id() == known_id);
    law_pin_is_that_of_the_first_package(packages, known_id, pin);
    let (combined, first) = choose|combined: Option<Seq<char>>, first: PickModel|
        {
            &&& #[trigger] required_by_all(
                rules.has_semver_operator,
                rules.parse_numbers,
                rules.combine_version_reqs,
                requesters,
                combined,
            )
            &&& #[trigger] picks_under(
                rules.combine_version_reqs,
                rules.parse_pinned_version,
                api_mod.releases,
                known_id,
                combined,
                pin,
                game,
                unstable,
                first,
            )
            &&& match first {
                Ok((version, url)) => release == Some((version, url)) && notice is None,
                Err(reason) => exists|highest: Option<int>| #[trigger]
                    highest_may_be::<K, V>(rules.parse_version, requesters, highest) && (if highest
                        is Some && requesters.len() > 1 {
                        highest_resolves_to(
                            rules,
                            dep_id,
                            requesters,
                            requesters[highest->0].required_version,
                            api_mod,
                            pin,
                            game,
                            unstable,
                            release,
                            notice,
                        )
                    } else {
                        release is None && notice == Some(incompatible_notice(dep_id, reason))
                    }),
            }
        };
    let first_answer = lemma_picked_under(
        rules.combine_version_reqs,
        rules.parse_pinned_version,
        api_mod.releases,
        known_id,
        combined,
        pin,
        game,
        unstable,
        first,
    );
    assert(demanded::<K, O, N, V, C, P>(rules, requesters, combined));
    if let Err(reason) = first {
        let highest = choose|highest: Option<int>| #[trigger]
            highest_may_be::<K, V>(rules.parse_version, requesters, highest) && (if highest is Some
                && requesters.len() > 1 {
                highest_resolves_to(
                    rules,
                    dep_id,
                    requesters,
                    requesters[highest->0].required_version,
                    api_mod,
                    pin,
                    game,
                    unstable,
                    release,
                    notice,
                )
            } else {
                release is None && notice == Some(incompatible_notice(dep_id, reason))
            });
        if highest is Some && requesters.len() > 1 {
            let declared = requesters[highest->0].required_version;
            let (condition, second) = choose|condition: Option<Seq<char>>, second: PickModel|
                {
                    &&& #[trigger] requires_version(
                        rules.has_semver_operator,
                        rules.parse_numbers,
                        declared,
                        condition,
                    )
                    &&& #[trigger] picks_under(
                        rules.combine_version_reqs,
                        rules.parse_pinned_version,
                        api_mod.releases,
                        known_id,
                        condition,
                        pin,
                        game,
                        unstable,
                        second,
                    )
                    &&& match second {
                        Ok((version, url)) => release == Some((version, url)) && notice == Some(
                            highest_notice(dep_id, requesters, declared),
                        ),
                        Err(reason) => release is None && notice == Some(
                            incompatible_notice(dep_id, reason),
                        ),
                    }
                };
            let second_answer = lemma_picked_under(
                rules.combine_version_reqs,
                rules.parse_pinned_version,
                api_mod.releases,
                known_id,
                condition,
                pin,
                game,
                unstable,
                second,
            );
            assert(highest_may_be::<K, V>(rules.parse_version, requesters, Some(highest->0)));
            assert(requesters.map_values(
                |r: RequesterModel| r.mod_id + " wants "@ + r.required_version,
            ) =~= requesters.map_values(|r: RequesterModel| want(r)));
            assert(demanded::<K, O, N, V, C, P>(rules, requesters, condition));
        } else if requesters.len() > 1 {
            assert(highest is None);
        }
    }
}

/// Where no requester asks for a version, a release is an answer of the rule to just the pin.
pub proof fn lemma_pinned_answer<K: Ord, R, O, N, V, C, P>(
    rules: VersionRules<O, N, V, C, P>,
    requesters: Seq<RequesterModel>,
    api_mod: ApiModModel<R>,
    packages: Seq<PackageModel>,
    game: Seq<char>,
    unstable: bool,
    version: Seq<char>,
    url: Seq<char>,
    known_id: Seq<char>,
    pin: Option<Seq<char>>,
) -> (answer: Pick) where
    O: Fn(&str) -> bool,
    N: Fn(&str) -> Option<(u64, u64, u64)>,
    V: Fn(&str) -> Option<K>,
    C: Fn(&str, &str) -> String,
    P: Fn(&R, &Package, &str, bool) -> Pick,

    requires
        is_release_of::<K, R, O, N, V, C, P>(
            rules,
            requesters,
            api_mod,
            packages,
            game,
            unstable,
            version,
            url,
        ),
        forall|i: int|
            0 <= i < requesters.len() ==> trimmed((#[trigger] requesters[i]).required_version).len()
                == 0 || trimmed(requesters[i].required_version) == "*"@,
        known_as(api_mod, known_id),
        pinned_to(packages, known_id, pin),
    ensures
        answered(
            rules.parse_pinned_version,
            api_mod.releases,
            known_id,
            pin,
            game,
            unstable,
            answer,
        ),
        answer is Ok,
        answer->Ok_0.0@ == version,
        answer->Ok_0.1@ == url,
{
    let (known, own_pin, required, answer) = choose|
        known: Seq<char>,
        own_pin: Option<Seq<char>>,
        required: Option<Seq<char>>,
        answer: Pick,
    |
        {
            &&& known_as(api_mod, known)
            &&& pinned_to(packages, known, own_pin)
            &&& demanded::<K, O, N, V, C, P>(rules, requesters, required)
            &&& #[trigger] answered_under(
                rules.combine_version_reqs,
                rules.parse_pinned_version,
                api_mod.releases,
                known,
                required,
                own_pin,
                game,
                unstable,
                answer,
            )
            &&& answer is Ok
            &&& answer->Ok_0.0@ == version
            &&& answer->Ok_0.1@ == url
        };
    assert(known == known_id);
    law_pin_is_that_of_the_first_package(packages, known_id, pin);
    law_pin_is_that_of_the_first_package(packages, known_id, own_pin);
    if required_by_all(
        rules.has_semver_operator,
        rules.parse_numbers,
        rules.combine_version_reqs,
        requesters,
        required,
    ) {
        law_wildcards_require_nothing(
            rules.has_semver_operator,
            rules.parse_numbers,
            rules.combine_version_reqs,
            requesters,
            required,
        );
    } else {
        let i = choose|i: int| #[trigger]
            highest_may_be::<K, V>(rules.parse_version, requesters, Some(i)) && requires_version(
                rules.has_semver_operator,
                rules.parse_numbers,
                requesters[i].required_version,
                required,
            );
        lemma_highest_is_one_of_them::<K, V>(rules.parse_version, requesters, i);
        law_declared_version_asks_for(
            rules.has_semver_operator,
            rules.parse_numbers,
            requesters[i].required_version,
            required,
        );
    }
    let wanted = choose|wanted: Option<Seq<char>>| #[trigger]
        asks_both(rules.combine_version_reqs, required, own_pin, wanted) && answered(
            rules.parse_pinned_version,
            api_mod.releases,
            known,
            wanted,
            game,
            unstable,
            answer,
        );
    assert(wanted == pin);
    answer
}

/// Where the user's packages pin a mod and no requester asks for a version, the release is what the
/// rule answers to just that pin. `v` and `u` are what it answers.
pub proof fn law_pin_decides_the_release<K: Ord, R, O, N, V, C, P>(
    rules: VersionRules<O, N, V, C, P>,
    requesters: Seq<RequesterModel>,
    api_mod: ApiModModel<R>,
    packages: Seq<PackageModel>,
    game: Seq<char>,
    unstable: bool,
    version: Seq<char>,
    url: Seq<char>,
    known_id: Seq<char>,
    pin: Option<Seq<char>>,
    v: Seq<char>,
    u: Seq<char>,
) where
    O: Fn(&str) -> bool,
    N: Fn(&str) -> Option<(u64, u64, u64)>,
    V: Fn(&str) -> Option<K>,
    C: Fn(&str, &str) -> String,
    P: Fn(&R, &Package, &str, bool) -> Pick,

    requires
        is_release_of::<K, R, O, N, V, C, P>(
            rules,
            requesters,
            api_mod,
            packages,
            game,
            unstable,
            version,
            url,
        ),
        forall|i: int|
            0 <= i < requesters.len() ==> trimmed((#[trigger] requesters[i]).required_version).len()
                == 0 || trimmed(requesters[i].required_version) == "*"@,
        known_as(api_mod, known_id),
        pinned_to(packages, known_id, pin),
        forall|answer: Pick| #[trigger]
            answered(
                rules.parse_pinned_version,
                api_mod.releases,
                known_id,
                pin,
                game,
                unstable,
                answer,
            ) && answer is Ok ==> answer->Ok_0.0@ == v && answer->Ok_0.1@ == u,
    ensures
        version == v,
        url == u,
{
    let _ = lemma_pinned_answer::<K, R, O, N, V, C, P>(
        rules,
        requesters,
        api_mod,
        packages,
        game,
        unstable,
        version,
        url,
        known_id,
        pin,
    );
}

proof fn lemma_highest_is_one_of_them<K: Ord, V: Fn(&str) -> Option<K>>(
    parse: V,
    requesters: Seq<RequesterModel>,
    i: int,
)
    requires
        highest_may_be::<K, V>(parse, requesters, Some(i)),
    ensures
        0 <= i < requesters.len(),
{
}

} // verus!
