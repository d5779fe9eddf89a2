//! What is asked of the rules that are handed in, in the words of the calls themselves.

use crate::answers::{answers, combines, is_id_of, pick_view, picks, splits, Pick, PickModel};
use crate::install_manager::{conjoined, ApiModModel, InstallModel, RequestModel};
use crate::package::{pin_exact, pin_ignoring_case, Package, PackageModel};
use crate::resolve_installs::picks_under;
use crate::text::{lowercase, same_ignoring_ascii_case};
use vstd::prelude::*;

verus! {

/// Whether a call of the rule on this text may answer `r`.
pub open spec fn replies<R, F: Fn(&str) -> R>(rule: F, s: Seq<char>, r: R) -> bool {
    exists|x: &str| #[trigger] call_ensures(rule, (x,), r) && x@ == s
}

/// Whether a call of the splitting rule on this text may give the mod id `id`.
pub open spec fn gives_id<F: Fn(&str) -> (String, Option<String>)>(
    rule: F,
    s: Seq<char>,
    id: Seq<char>,
) -> bool {
    exists|x: &str, split: (String, Option<String>)| #[trigger]
        call_ensures(rule, (x,), split) && x@ == s && split.0@ == id
}

/// What a text is split into, by a call of the rule.
pub proof fn law_id_is_given<F: Fn(&str) -> (String, Option<String>)>(
    rule: F,
    s: Seq<char>,
    id: Seq<char>,
)
    requires
        is_id_of(rule, s, id),
    ensures
        gives_id(rule, s, id),
{
    let version = choose|version: Option<Seq<char>>| #[trigger] splits(rule, s, id, version);
    let split = choose|r: (String, Option<String>)| #[trigger]
        answers(rule, s, r) && r.deep_view() == (id, version);
    let x = choose|x: &str| x@ == s && #[trigger] call_ensures(rule, (x,), split);
    assert(call_ensures(rule, (x,), split) && split.0@ == id);
}

/// Whether `r` asks for both of two conditions, either of which may be absent: where both are
/// there, it is what a call of the rule makes of the first and the second.
pub open spec fn asks_both<C: Fn(&str, &str) -> String>(
    combine: C,
    a: Option<Seq<char>>,
    b: Option<Seq<char>>,
    r: Option<Seq<char>>,
) -> bool {
    &&& a is None ==> r == b
    &&& b is None ==> r == a
    &&& a is Some && b is Some ==> exists|x: &str, y: &str, z: String| #[trigger]
        call_ensures(combine, (x, y), z) && a == Some(x@) && b == Some(y@) && r == Some(z@)
}

/// Whether a call of the rule may answer `pick` when it is asked for a release of the mod that
/// meets `wanted`, for the game version `game`.
pub open spec fn answered<R, P: Fn(&R, &Package, &str, bool) -> Pick>(
    rule: P,
    releases: R,
    mod_id: Seq<char>,
    wanted: Option<Seq<char>>,
    game: Seq<char>,
    unstable: bool,
    pick: Pick,
) -> bool {
    exists|package: &Package, version: &str| #[trigger]
        call_ensures(rule, (&releases, package, version, unstable), pick) && package.mod_id@
            == mod_id && package.pinned_version.deep_view() == wanted && version@ == game
}

/// An answer comes of a call of the rule with just these releases, a package with just this id and
/// this condition, just this game version and just this permission of unstable releases.
pub proof fn law_answer_comes_of_a_call<R, P: Fn(&R, &Package, &str, bool) -> Pick>(
    rule: P,
    releases: R,
    mod_id: Seq<char>,
    wanted: Option<Seq<char>>,
    game: Seq<char>,
    unstable: bool,
    pick: Pick,
)
    requires
        answered(rule, releases, mod_id, wanted, game, unstable, pick),
    ensures
        exists|package: &Package, version: &str|
            {
                &&& #[trigger] call_ensures(rule, (&releases, package, version, unstable), pick)
                &&& package.mod_id@ == mod_id
                &&& package.pinned_version is Some <==> wanted is Some
                &&& wanted is Some ==> package.pinned_version->0@ == wanted->0
                &&& version@ == game
            },
{
}

/// Of two conditions that are both there the rule makes one, in their order. One that stands alone
/// stays as it is, and where there is none, nothing is asked for.
pub proof fn law_both_conditions_are_asked_for<C: Fn(&str, &str) -> String>(
    combine: C,
    a: Option<Seq<char>>,
    b: Option<Seq<char>>,
    r: Option<Seq<char>>,
)
    requires
        asks_both(combine, a, b, r),
    ensures
        a is None && b is None ==> r is None,
        a is Some && b is None ==> r == a,
        a is None && b is Some ==> r == b,
        a is Some && b is Some ==> exists|x: &str, y: &str, z: String|
            {
                &&& #[trigger] call_ensures(combine, (x, y), z)
                &&& x@ == a->0
                &&& y@ == b->0
                &&& r is Some && z@ == r->0
            },
{
}

/// A reply comes of a call of the rule on just this text.
pub proof fn law_reply_comes_of_a_call<R, F: Fn(&str) -> R>(rule: F, s: Seq<char>, r: R)
    requires
        replies(rule, s, r),
    ensures
        exists|x: &str| x@ == s && #[trigger] call_ensures(rule, (x,), r),
{
}

/// An id is what a call of the splitting rule on just this text gives.
pub proof fn law_id_comes_of_a_call<F: Fn(&str) -> (String, Option<String>)>(
    rule: F,
    s: Seq<char>,
    id: Seq<char>,
)
    requires
        gives_id(rule, s, id),
    ensures
        exists|x: &str, split: (String, Option<String>)|
            x@ == s && split.0@ == id && #[trigger] call_ensures(rule, (x,), split),
{
}

/// The first package with the id of a mod, but for the case of ASCII letters, pins it. Where no
/// package has its id, it is not pinned.
pub proof fn law_first_package_pins(packages: Seq<PackageModel>, mod_id: Seq<char>, k: int)
    ensures
        0 <= k < packages.len() && same_ignoring_ascii_case(packages[k].mod_id, mod_id) && (forall|
            j: int,
        |
            0 <= j < k ==> !same_ignoring_ascii_case((#[trigger] packages[j]).mod_id, mod_id))
            ==> pin_ignoring_case(packages, mod_id) == packages[k].pinned_version && pinned_to(
            packages,
            mod_id,
            packages[k].pinned_version,
        ),
        (forall|j: int|
            0 <= j < packages.len() ==> !same_ignoring_ascii_case(
                (#[trigger] packages[j]).mod_id,
                mod_id,
            )) ==> pin_ignoring_case(packages, mod_id) is None,
{
    if 0 <= k < packages.len() {
        law_pin_is_that_of_the_first_package(packages, mod_id, packages[k].pinned_version);
    }
    law_pin_is_that_of_the_first_package(packages, mod_id, None);
}

/// The first package with just the id of a mod pins it, where the case of letters counts. Where no
/// package has its id, it is not pinned.
pub proof fn law_first_exact_package_pins(packages: Seq<PackageModel>, mod_id: Seq<char>, k: int)
    ensures
        0 <= k < packages.len() && packages[k].mod_id == mod_id && (forall|j: int|
            0 <= j < k ==> (#[trigger] packages[j]).mod_id != mod_id) ==> pin_exact(
            packages,
            mod_id,
        ) == packages[k].pinned_version,
        (forall|j: int| 0 <= j < packages.len() ==> (#[trigger] packages[j]).mod_id != mod_id)
            ==> pin_exact(packages, mod_id) is None,
{
    law_exact_pin_is_that_of_the_first_package(packages, mod_id);
    if 0 <= k < packages.len() && packages[k].mod_id == mod_id && (forall|j: int|
        0 <= j < k ==> (#[trigger] packages[j]).mod_id != mod_id) {
        let pin = pin_exact(packages, mod_id);
        let l = choose|l: int|
            0 <= l < packages.len() && (#[trigger] packages[l]).mod_id == mod_id
                && packages[l].pinned_version == pin && forall|j: int|
                0 <= j < l ==> (#[trigger] packages[j]).mod_id != mod_id;
        assert(l == k);
    }
}

/// Whether `known_id` is the id by which the site knows a mod: its alias, or its number where it has
/// no alias.
pub open spec fn known_as<R>(api_mod: ApiModModel<R>, known_id: Seq<char>) -> bool {
    &&& api_mod.url_alias is Some ==> api_mod.url_alias == Some(known_id)
    &&& api_mod.url_alias is None ==> api_mod.mod_id == known_id
}

/// Whether `name` is the name that the site gives a mod, empty where it gives none.
pub open spec fn called<R>(api_mod: ApiModModel<R>, name: Seq<char>) -> bool {
    &&& api_mod.name is Some ==> api_mod.name == Some(name)
    &&& api_mod.name is None ==> name.len() == 0
}

/// Whether a call of the rule may answer `pick` when it is asked for a release of the mod that
/// meets both `condition` and `pin`, for the game version `game`.
pub open spec fn answered_under<
    R,
    C: Fn(&str, &str) -> String,
    P: Fn(&R, &Package, &str, bool) -> Pick,
>(
    combine: C,
    rule: P,
    releases: R,
    mod_id: Seq<char>,
    condition: Option<Seq<char>>,
    pin: Option<Seq<char>>,
    game: Seq<char>,
    unstable: bool,
    pick: Pick,
) -> bool {
    exists|wanted: Option<Seq<char>>| #[trigger]
        asks_both(combine, condition, pin, wanted) && answered(
            rule,
            releases,
            mod_id,
            wanted,
            game,
            unstable,
            pick,
        )
}

/// Whether a download is of a requested mod that the site has, and has the version and the url of
/// an answer of the rule when it is asked about that mod for just this game version.
pub open spec fn is_picked<R, P: Fn(&R, &Package, &str, bool) -> Pick>(
    rule: P,
    requests: Seq<RequestModel>,
    found: Map<Seq<char>, ApiModModel<R>>,
    game: Seq<char>,
    unstable: bool,
    install: InstallModel,
) -> bool {
    exists|j: int, wanted: Option<Seq<char>>, answer: Pick|
        {
            &&& 0 <= j < requests.len()
            &&& found.contains_key(requests[j].mod_id)
            &&& #[trigger] answered(
                rule,
                found[requests[j].mod_id].releases,
                requests[j].mod_id,
                wanted,
                game,
                unstable,
                answer,
            )
            &&& answer is Ok
            &&& answer->Ok_0.0@ == install.version_to_install
            &&& answer->Ok_0.1@ == install.download_url
            &&& lowercase(requests[j].mod_id) == install.mod_id
        }
}

/// Whether `pin` is what the user's packages pin the mod to: the first package with its id, but for
/// the case of ASCII letters, decides.
pub open spec fn pinned_to(
    packages: Seq<PackageModel>,
    mod_id: Seq<char>,
    pin: Option<Seq<char>>,
) -> bool {
    ||| exists|k: int|
        0 <= k < packages.len() && same_ignoring_ascii_case(
            (#[trigger] packages[k]).mod_id,
            mod_id,
        ) && packages[k].pinned_version == pin && forall|j: int|
            0 <= j < k ==> !same_ignoring_ascii_case((#[trigger] packages[j]).mod_id, mod_id)
    ||| pin is None && forall|j: int|
        0 <= j < packages.len() ==> !same_ignoring_ascii_case(
            (#[trigger] packages[j]).mod_id,
            mod_id,
        )
}

/// The pin that is found is what the packages pin the mod to, and they pin it to nothing else.
pub proof fn law_pin_is_that_of_the_first_package(
    packages: Seq<PackageModel>,
    mod_id: Seq<char>,
    pin: Option<Seq<char>>,
)
    ensures
        pinned_to(packages, mod_id, pin) <==> pin == pin_ignoring_case(packages, mod_id),
    decreases packages.len(),
{
    if packages.len() > 0 {
        let rest = packages.drop_first();
        assert forall|j: int| 0 <= j < rest.len() implies #[trigger] rest[j] == packages[j + 1] by {
        }
        if same_ignoring_ascii_case(packages[0].mod_id, mod_id) {
            if pin == packages[0].pinned_version {
                assert(same_ignoring_ascii_case(packages[0].mod_id, mod_id)
                    && packages[0].pinned_version == pin);
            }
        } else {
            law_pin_is_that_of_the_first_package(rest, mod_id, pin);
            if pinned_to(rest, mod_id, pin) {
                if exists|k: int|
                    0 <= k < rest.len() && same_ignoring_ascii_case(
                        (#[trigger] rest[k]).mod_id,
                        mod_id,
                    ) && rest[k].pinned_version == pin && forall|j: int|
                        0 <= j < k ==> !same_ignoring_ascii_case(
                            (#[trigger] rest[j]).mod_id,
                            mod_id,
                        ) {
                    let k = choose|k: int|
                        0 <= k < rest.len() && same_ignoring_ascii_case(
                            (#[trigger] rest[k]).mod_id,
                            mod_id,
                        ) && rest[k].pinned_version == pin && forall|j: int|
                            0 <= j < k ==> !same_ignoring_ascii_case(
                                (#[trigger] rest[j]).mod_id,
                                mod_id,
                            );
                    assert forall|j: int| 0 <= j < k + 1 implies !same_ignoring_ascii_case(
                        (#[trigger] packages[j]).mod_id,
                        mod_id,
                    ) by {
                        if j > 0 {
                            assert(rest[j - 1] == packages[j]);
                        }
                    }
                    assert(packages[k + 1] == rest[k]);
                } else {
                    assert forall|j: int|
                        0 <= j < packages.len() implies !same_ignoring_ascii_case(
                        (#[trigger] packages[j]).mod_id,
                        mod_id,
                    ) by {
                        if j > 0 {
                            assert(rest[j - 1] == packages[j]);
                        }
                    }
                }
            }
            if pinned_to(packages, mod_id, pin) {
                if exists|k: int|
                    0 <= k < packages.len() && same_ignoring_ascii_case(
                        (#[trigger] packages[k]).mod_id,
                        mod_id,
                    ) && packages[k].pinned_version == pin && forall|j: int|
                        0 <= j < k ==> !same_ignoring_ascii_case(
                            (#[trigger] packages[j]).mod_id,
                            mod_id,
                        ) {
                    let k = choose|k: int|
                        0 <= k < packages.len() && same_ignoring_ascii_case(
                            (#[trigger] packages[k]).mod_id,
                            mod_id,
                        ) && packages[k].pinned_version == pin && forall|j: int|
                            0 <= j < k ==> !same_ignoring_ascii_case(
                                (#[trigger] packages[j]).mod_id,
                                mod_id,
                            );
                    assert(rest[k - 1] == packages[k]);
                } else {
                    assert forall|j: int| 0 <= j < rest.len() implies !same_ignoring_ascii_case(
                        (#[trigger] rest[j]).mod_id,
                        mod_id,
                    ) by {
                        assert(rest[j] == packages[j + 1]);
                    }
                }
            }
        }
    }
}

/// Whether `pin` is the pin of the first package with just this id.
pub open spec fn pinned_exactly(
    packages: Seq<PackageModel>,
    mod_id: Seq<char>,
    pin: Option<Seq<char>>,
) -> bool {
    ||| exists|k: int|
        0 <= k < packages.len() && (#[trigger] packages[k]).mod_id == mod_id
            && packages[k].pinned_version == pin && forall|j: int|
            0 <= j < k ==> (#[trigger] packages[j]).mod_id != mod_id
    ||| pin is None && forall|j: int|
        0 <= j < packages.len() ==> (#[trigger] packages[j]).mod_id != mod_id
}

/// The pin that is found by the exact id is that of the first package with it.
pub proof fn law_exact_pin_is_that_of_the_first_package(
    packages: Seq<PackageModel>,
    mod_id: Seq<char>,
)
    ensures
        pinned_exactly(packages, mod_id, pin_exact(packages, mod_id)),
    decreases packages.len(),
{
    if packages.len() > 0 {
        let pin = pin_exact(packages, mod_id);
        let rest = packages.drop_first();
        if packages[0].mod_id == mod_id {
            assert(packages[0].mod_id == mod_id && packages[0].pinned_version == pin);
        } else {
            law_exact_pin_is_that_of_the_first_package(rest, mod_id);
            if exists|k: int|
                0 <= k < rest.len() && (#[trigger] rest[k]).mod_id == mod_id
                    && rest[k].pinned_version == pin && forall|j: int|
                    0 <= j < k ==> (#[trigger] rest[j]).mod_id != mod_id {
                let k = choose|k: int|
                    0 <= k < rest.len() && (#[trigger] rest[k]).mod_id == mod_id
                        && rest[k].pinned_version == pin && forall|j: int|
                        0 <= j < k ==> (#[trigger] rest[j]).mod_id != mod_id;
                assert forall|j: int| 0 <= j < k + 1 implies (#[trigger] packages[j]).mod_id
                    != mod_id by {
                    if j > 0 {
                        assert(rest[j - 1] == packages[j]);
                    }
                }
                assert(packages[k + 1] == rest[k]);
            } else {
                assert forall|j: int| 0 <= j < packages.len() implies (#[trigger] packages[j]).mod_id
                    != mod_id by {
                    if j > 0 {
                        assert(rest[j - 1] == packages[j]);
                    }
                }
            }
        }
    }
}

/// Two conditions are conjoined by asking for both.
pub proof fn law_conjoined_asks_both<C: Fn(&str, &str) -> String>(
    combine: C,
    a: Option<Seq<char>>,
    b: Option<Seq<char>>,
    r: Option<Seq<char>>,
)
    requires
        conjoined(combine, a, b, r),
    ensures
        asks_both(combine, a, b, r),
{
    if a is Some && b is Some {
        assert(combines(combine, a->0, b->0, r->0));
        let (x, y, z) = choose|x: &str, y: &str, z: String|
            x@ == a->0 && y@ == b->0 && z@ == r->0 && #[trigger] call_ensures(
                combine,
                (x, y),
                z,
            );
        assert(call_ensures(combine, (x, y), z) && a == Some(x@) && b == Some(y@) && r == Some(z@));
    }
}

/// What is picked under a condition and a pin answers a call of the rule with both of them, for
/// just this game version.
pub proof fn law_pick_answers_the_question<
    R,
    C: Fn(&str, &str) -> String,
    P: Fn(&R, &Package, &str, bool) -> Pick,
>(
    combine: C,
    rule: P,
    releases: R,
    mod_id: Seq<char>,
    condition: Option<Seq<char>>,
    pin: Option<Seq<char>>,
    game: Seq<char>,
    unstable: bool,
    pick: PickModel,
)
    requires
        picks_under(combine, rule, releases, mod_id, condition, pin, game, unstable, pick),
    ensures
        exists|wanted: Option<Seq<char>>, answer: Pick|
            {
                &&& asks_both(combine, condition, pin, wanted)
                &&& #[trigger] answered(rule, releases, mod_id, wanted, game, unstable, answer)
                &&& match pick {
                    Ok((version, url)) => answer is Ok && answer->Ok_0.0@ == version
                        && answer->Ok_0.1@ == url,
                    Err(reason) => answer is Err && answer->Err_0@ == reason,
                }
            },
{
    let wanted = choose|wanted: Option<Seq<char>>| #[trigger]
        conjoined(combine, condition, pin, wanted) && picks(
            rule,
            releases,
            PackageModel { mod_id, pinned_version: wanted },
            game,
            unstable,
            pick,
        );
    law_conjoined_asks_both(combine, condition, pin, wanted);
    law_picks_answers(rule, releases, mod_id, wanted, game, unstable, pick);
}

/// What is picked for a package answers a call of the rule with it, for just this game version.
pub proof fn law_picks_answers<R, P: Fn(&R, &Package, &str, bool) -> Pick>(
    rule: P,
    releases: R,
    mod_id: Seq<char>,
    wanted: Option<Seq<char>>,
    game: Seq<char>,
    unstable: bool,
    pick: PickModel,
)
    requires
        picks(
            rule,
            releases,
            PackageModel { mod_id, pinned_version: wanted },
            game,
            unstable,
            pick,
        ),
    ensures
        exists|answer: Pick|
            {
                &&& #[trigger] answered(rule, releases, mod_id, wanted, game, unstable, answer)
                &&& match pick {
                    Ok((version, url)) => answer is Ok && answer->Ok_0.0@ == version
                        && answer->Ok_0.1@ == url,
                    Err(reason) => answer is Err && answer->Err_0@ == reason,
                }
            },
{
    let (p, g, answer) = choose|p: &Package, g: &str, answer: Pick|
        p.deep_view() == (PackageModel { mod_id, pinned_version: wanted }) && g@ == game
            && pick_view(answer) == pick && #[trigger] call_ensures(
            rule,
            (&releases, p, g, unstable),
            answer,
        );
    assert(call_ensures(rule, (&releases, p, g, unstable), answer) && p.mod_id@ == mod_id);
    assert(answered(rule, releases, mod_id, wanted, game, unstable, answer));
}

} // verus!
