//! What holds of the road from requests to downloads, whatever the rules answer.

use crate::answers::{answers, combines_as, combines_once, picks_once, Pick, PickModel};
use crate::install_manager::{
    conjoined, ApiModModel, FailureModel, InstallModel, RequestModel, ResolveOptions,
};
use crate::package::{pin_ignoring_case, Package, PackageModel};
use crate::questions::{
    answered, asks_both, law_answer_comes_of_a_call, law_conjoined_asks_both,
    law_pick_answers_the_question, law_pin_is_that_of_the_first_package, pinned_to, replies,
};
use crate::resolve_installs::{
    all_conjoined, applied_pin, asks_for, downloadable, failures_of, fallback_reqs, first_present,
    fresh_install, installs_of, law_base_game_never_asked_for, lookup, merges_to, of_mod, outcomes_may_be, picks_under,
    resolves_to, stands_for, version_reqs, OutcomeModel,
};
use crate::text::lowercase;
use vstd::prelude::*;

verus! {

/// Where the options say to pass over the user's pins, the pins have no say: under any two lists
/// of packages the requests may come to the same outcomes. Where they are applied, the pin of a
/// mod is that of the first package with its id, whatever the case of the ASCII letters.
pub proof fn law_pins_have_a_say_only_if_applied<
    R,
    C: Fn(&str, &str) -> String,
    P: Fn(&R, &Package, &str, bool) -> Pick,
>(
    combine: C,
    pick_rule: P,
    requests: Seq<RequestModel>,
    found: Map<Seq<char>, ApiModModel<R>>,
    options: ResolveOptions,
    a: Seq<PackageModel>,
    b: Seq<PackageModel>,
    outcomes: Seq<OutcomeModel>,
)
    ensures
        !options.apply_config_pins ==> (outcomes_may_be(
            combine,
            pick_rule,
            requests,
            found,
            options,
            a,
            outcomes,
        ) <==> outcomes_may_be(combine, pick_rule, requests, found, options, b, outcomes)),
        options.apply_config_pins ==> forall|mod_id: Seq<char>| #[trigger]
            applied_pin(options, a, mod_id) == pin_ignoring_case(a, mod_id),
{
    if !options.apply_config_pins {
        assert forall|mod_id: Seq<char>| #[trigger]
            applied_pin(options, a, mod_id) == applied_pin(options, b, mod_id) by {}
    }
}

proof fn lemma_outcome_determined<
    R,
    C: Fn(&str, &str) -> String,
    P: Fn(&R, &Package, &str, bool) -> Pick,
>(
    combine: C,
    pick_rule: P,
    request: RequestModel,
    found: Option<ApiModModel<R>>,
    pin: Option<Seq<char>>,
    game: Seq<char>,
    unstable: bool,
    a: OutcomeModel,
    b: OutcomeModel,
)
    requires
        combines_once(combine),
        picks_once::<R, P>(pick_rule),
        resolves_to(combine, pick_rule, request, found, pin, game, unstable, a),
        resolves_to(combine, pick_rule, request, found, pin, game, unstable, b),
    ensures
        a == b,
{
}

/// Rules that answer as functions do leave nothing open: the same requests, against the same mods
/// and under the same options and pins, come to the same outcomes.
pub proof fn law_outcomes_are_determined<
    R,
    C: Fn(&str, &str) -> String,
    P: Fn(&R, &Package, &str, bool) -> Pick,
>(
    combine: C,
    pick_rule: P,
    requests: Seq<RequestModel>,
    found: Map<Seq<char>, ApiModModel<R>>,
    options: ResolveOptions,
    packages: Seq<PackageModel>,
    a: Seq<OutcomeModel>,
    b: Seq<OutcomeModel>,
)
    requires
        combines_once(combine),
        picks_once::<R, P>(pick_rule),
        outcomes_may_be(combine, pick_rule, requests, found, options, packages, a),
        outcomes_may_be(combine, pick_rule, requests, found, options, packages, b),
    ensures
        a == b,
{
    assert forall|i: int| 0 <= i < requests.len() implies a[i] == b[i] by {
        lemma_outcome_determined(
            combine,
            pick_rule,
            requests[i],
            lookup(found, requests[i].mod_id),
            applied_pin(options, packages, requests[i].mod_id),
            options.pinned_game_version@,
            options.allow_unstable,
            a[i],
            b[i],
        );
    }
    assert(a =~= b);
}

proof fn lemma_split_outcomes(a: Seq<OutcomeModel>, b: Seq<OutcomeModel>)
    ensures
        installs_of(a + b) == installs_of(a) + installs_of(b),
        failures_of(a + b) == failures_of(a) + failures_of(b),
    decreases b.len(),
{
    if b.len() == 0 {
        assert(a + b =~= a);
        assert(installs_of(b) =~= Seq::empty());
        assert(failures_of(b) =~= Seq::empty());
        assert(installs_of(a) + installs_of(b) =~= installs_of(a));
        assert(failures_of(a) + failures_of(b) =~= failures_of(a));
    } else {
        lemma_split_outcomes(a, b.drop_last());
        assert((a + b).drop_last() =~= a + b.drop_last());
        assert((a + b).last() == b.last());
        assert(installs_of(a + b) =~= installs_of(a) + installs_of(b));
        assert(failures_of(a + b) =~= failures_of(a) + failures_of(b));
    }
}

/// One more request leaves the others as they were: the outcomes that the requests may come to
/// beside it are those that they may come to without it, as long as the mod site says the same
/// about their mods. What is installed and what fails is the same too, but for the entry of the
/// one more request.
pub proof fn law_other_outcomes_stay<
    R,
    C: Fn(&str, &str) -> String,
    P: Fn(&R, &Package, &str, bool) -> Pick,
>(
    combine: C,
    pick_rule: P,
    before: Seq<RequestModel>,
    one_more: RequestModel,
    after: Seq<RequestModel>,
    found: Map<Seq<char>, ApiModModel<R>>,
    found_with: Map<Seq<char>, ApiModModel<R>>,
    options: ResolveOptions,
    packages: Seq<PackageModel>,
    outcomes_before: Seq<OutcomeModel>,
    outcome: OutcomeModel,
    outcomes_after: Seq<OutcomeModel>,
)
    requires
        outcomes_before.len() == before.len(),
        outcomes_after.len() == after.len(),
        forall|i: int|
            0 <= i < (before + after).len() ==> lookup(
                found_with,
                (#[trigger] (before + after)[i]).mod_id,
            ) == lookup(found, (before + after)[i].mod_id),
        outcomes_may_be(
            combine,
            pick_rule,
            before.push(one_more) + after,
            found_with,
            options,
            packages,
            outcomes_before.push(outcome) + outcomes_after,
        ),
    ensures
        outcomes_may_be(
            combine,
            pick_rule,
            before + after,
            found,
            options,
            packages,
            outcomes_before + outcomes_after,
        ),
        installs_of(outcomes_before.push(outcome) + outcomes_after) == installs_of(
            outcomes_before,
        ) + installs_of(seq![outcome]) + installs_of(outcomes_after),
        failures_of(outcomes_before.push(outcome) + outcomes_after) == failures_of(
            outcomes_before,
        ) + failures_of(seq![outcome]) + failures_of(outcomes_after),
        installs_of(outcomes_before + outcomes_after) == installs_of(outcomes_before)
            + installs_of(outcomes_after),
        failures_of(outcomes_before + outcomes_after) == failures_of(outcomes_before)
            + failures_of(outcomes_after),
{
    let all = before.push(one_more) + after;
    let rest = before + after;
    let all_outcomes = outcomes_before.push(outcome) + outcomes_after;
    let rest_outcomes = outcomes_before + outcomes_after;
    assert forall|i: int| 0 <= i < rest.len() implies resolves_to(
        combine,
        pick_rule,
        rest[i],
        lookup(found, rest[i].mod_id),
        applied_pin(options, packages, rest[i].mod_id),
        options.pinned_game_version@,
        options.allow_unstable,
        #[trigger] rest_outcomes[i],
    ) by {
        let j = if i < before.len() {
            i
        } else {
            i + 1
        };
        assert(all[j] == rest[i]);
        assert(all_outcomes[j] == rest_outcomes[i]);
        assert(lookup(found_with, rest[i].mod_id) == lookup(found, rest[i].mod_id));
    }
    lemma_split_outcomes(outcomes_before, outcomes_after);
    lemma_split_outcomes(outcomes_before, seq![outcome]);
    lemma_split_outcomes(outcomes_before.push(outcome), outcomes_after);
    assert(outcomes_before.push(outcome) =~= outcomes_before + seq![outcome]);
}

proof fn lemma_of_mod_add(a: Seq<RequestModel>, b: Seq<RequestModel>, key: Seq<char>)
    ensures
        of_mod(a + b, key) == of_mod(a, key) + of_mod(b, key),
    decreases b.len(),
{
    if b.len() == 0 {
        assert(a + b =~= a);
        assert(of_mod(b, key) =~= Seq::empty());
        assert(of_mod(a, key) + of_mod(b, key) =~= of_mod(a, key));
    } else {
        lemma_of_mod_add(a, b.drop_last(), key);
        assert((a + b).drop_last() =~= a + b.drop_last());
        assert((a + b).last() == b.last());
        assert(of_mod(a + b, key) =~= of_mod(a, key) + of_mod(b, key));
    }
}

proof fn lemma_of_one(request: RequestModel, key: Seq<char>)
    ensures
        of_mod(seq![request], key) == (if lowercase(request.mod_id) == key {
            seq![request]
        } else {
            Seq::empty()
        }),
{
    let one = seq![request];
    assert(one.drop_last() =~= Seq::empty());
    assert(of_mod(one.drop_last(), key) =~= Seq::empty());
    assert(of_mod(one, key) =~= if lowercase(request.mod_id) == key {
        seq![request]
    } else {
        Seq::empty()
    });
}

proof fn lemma_of_mod_keys(requests: Seq<RequestModel>, key: Seq<char>)
    ensures
        of_mod(requests, key).len() > 0 <==> asks_for(requests, key),
    decreases requests.len(),
{
    if requests.len() > 0 {
        let rest = requests.drop_last();
        lemma_of_mod_keys(rest, key);
        if asks_for(rest, key) {
            let i = choose|i: int|
                0 <= i < rest.len() && lowercase(#[trigger] rest[i].mod_id) == key;
            assert(lowercase(requests[i].mod_id) == key);
        }
        if asks_for(requests, key) {
            let i = choose|i: int|
                0 <= i < requests.len() && lowercase(#[trigger] requests[i].mod_id) == key;
            if i < rest.len() {
                assert(lowercase(rest[i].mod_id) == key);
            }
        }
        if lowercase(requests.last().mod_id) == key {
            assert(lowercase(requests[requests.len() - 1].mod_id) == key);
        }
    }
}

proof fn lemma_stands_alone<C: Fn(&str, &str) -> String>(
    combine: C,
    request: RequestModel,
    r: RequestModel,
)
    requires
        stands_for(combine, seq![request], r),
    ensures
        r == request,
{
    let conditions = version_reqs(seq![request]);
    assert(conditions.drop_last() =~= Seq::empty());
    let before = choose|before: Option<Seq<char>>|
        all_conjoined(combine, conditions.drop_last(), before) && #[trigger] conjoined(
            combine,
            before,
            conditions.last(),
            r.version_req,
        );
    assert(all_conjoined(combine, conditions.drop_last(), before));
    assert(before is None);
    let fallbacks = fallback_reqs(seq![request]);
    assert(fallbacks.drop_last() =~= Seq::empty());
    assert(first_present(fallbacks.drop_last()) is None);
    assert(fallbacks.last() == request.fallback_req);
}

/// One more request for a mod that nobody else asks for is left as it is by the merging, and
/// changes nothing about what the others come down to.
pub proof fn law_merging_leaves_other_mods<C: Fn(&str, &str) -> String>(
    combine: C,
    requests: Seq<RequestModel>,
    one_more: RequestModel,
    r: Seq<RequestModel>,
) -> (p: int)
    requires
        !asks_for(requests, lowercase(one_more.mod_id)),
        merges_to(combine, requests.push(one_more), r),
    ensures
        0 <= p < r.len(),
        r[p] == one_more,
        merges_to(combine, requests, r.remove(p)),
{
    let all = requests.push(one_more);
    let key = lowercase(one_more.mod_id);
    assert(all =~= requests + seq![one_more]);
    assert(all[requests.len() as int] == one_more);
    assert(asks_for(r, lowercase(all[requests.len() as int].mod_id)));
    let p = choose|p: int| 0 <= p < r.len() && lowercase(#[trigger] r[p].mod_id) == key;
    let rest = r.remove(p);
    lemma_of_mod_keys(requests, key);
    lemma_of_mod_add(requests, seq![one_more], key);
    lemma_of_one(one_more, key);
    assert(of_mod(all, key) =~= seq![one_more]);
    assert(stands_for(combine, of_mod(all, lowercase(r[p].mod_id)), r[p]));
    lemma_stands_alone(combine, one_more, r[p]);
    assert forall|i: int| 0 <= i < rest.len() implies stands_for(
        combine,
        of_mod(requests, lowercase(rest[i].mod_id)),
        #[trigger] rest[i],
    ) by {
        let j = if i < p {
            i
        } else {
            i + 1
        };
        assert(rest[i] == r[j]);
        let k = lowercase(r[j].mod_id);
        assert(k != key);
        assert(stands_for(combine, of_mod(all, k), r[j]));
        lemma_of_mod_add(requests, seq![one_more], k);
        lemma_of_one(one_more, k);
        assert(of_mod(all, k) =~= of_mod(requests, k));
    }
    assert forall|i: int| 0 <= i < requests.len() implies asks_for(
        rest,
        lowercase(#[trigger] requests[i].mod_id),
    ) by {
        assert(all[i] == requests[i]);
        assert(asks_for(r, lowercase(all[i].mod_id)));
        let j = choose|j: int|
            0 <= j < r.len() && lowercase(#[trigger] r[j].mod_id) == lowercase(all[i].mod_id);
        assert(lowercase(requests[i].mod_id) != key);
        let q = if j < p {
            j
        } else {
            j - 1
        };
        assert(rest[q] == r[j]);
        assert(lowercase(rest[q].mod_id) == lowercase(requests[i].mod_id));
    }
    assert forall|i: int, j: int| 0 <= i < j < rest.len() implies lowercase(
        #[trigger] rest[i].mod_id,
    ) != lowercase(#[trigger] rest[j].mod_id) by {
        let x = if i < p {
            i
        } else {
            i + 1
        };
        let y = if j < p {
            j
        } else {
            j + 1
        };
        assert(rest[i] == r[x] && rest[j] == r[y]);
    }
    p
}

/// Both of two conditions, either of which may be absent, where `f` makes one of two.
pub open spec fn both(
    f: spec_fn(Seq<char>, Seq<char>) -> Seq<char>,
    a: Option<Seq<char>>,
    b: Option<Seq<char>>,
) -> Option<Seq<char>> {
    match (a, b) {
        (Some(a), Some(b)) => Some(f(a, b)),
        (Some(a), None) => Some(a),
        (None, b) => b,
    }
}

/// The first of two texts that is there.
pub open spec fn either(a: Option<Seq<char>>, b: Option<Seq<char>>) -> Option<Seq<char>> {
    match a {
        Some(a) => Some(a),
        None => b,
    }
}

/// Whether `f` makes the same of two conditions in either order.
pub open spec fn swaps(
    f: spec_fn(Seq<char>, Seq<char>) -> Seq<char>,
    a: Seq<char>,
    b: Seq<char>,
) -> bool {
    f(a, b) == f(b, a)
}

/// Whether `f` makes the same of three conditions in either grouping.
pub open spec fn regroups(
    f: spec_fn(Seq<char>, Seq<char>) -> Seq<char>,
    a: Seq<char>,
    b: Seq<char>,
    c: Seq<char>,
) -> bool {
    f(f(a, b), c) == f(a, f(b, c))
}

/// Whether it does not matter in which order `f` makes one condition of two.
pub open spec fn order_is_free(f: spec_fn(Seq<char>, Seq<char>) -> Seq<char>) -> bool {
    forall|a: Seq<char>, b: Seq<char>| #[trigger] swaps(f, a, b)
}

/// Whether it does not matter in which groups `f` makes one condition of several.
pub open spec fn grouping_is_free(f: spec_fn(Seq<char>, Seq<char>) -> Seq<char>) -> bool {
    forall|a: Seq<char>, b: Seq<char>, c: Seq<char>| #[trigger] regroups(f, a, b, c)
}

spec fn together(
    f: spec_fn(Seq<char>, Seq<char>) -> Seq<char>,
    conditions: Seq<Option<Seq<char>>>,
) -> Option<Seq<char>>
    decreases conditions.len(),
{
    if conditions.len() == 0 {
        None
    } else {
        both(f, together(f, conditions.drop_last()), conditions.last())
    }
}

proof fn lemma_together<C: Fn(&str, &str) -> String>(
    combine: C,
    f: spec_fn(Seq<char>, Seq<char>) -> Seq<char>,
    conditions: Seq<Option<Seq<char>>>,
    r: Option<Seq<char>>,
)
    requires
        combines_as(combine, f),
    ensures
        all_conjoined(combine, conditions, r) <==> r == together(f, conditions),
    decreases conditions.len(),
{
    if conditions.len() > 0 {
        let rest = conditions.drop_last();
        let before = together(f, rest);
        lemma_together(combine, f, rest, before);
        if all_conjoined(combine, conditions, r) {
            let b = choose|b: Option<Seq<char>>|
                all_conjoined(combine, rest, b) && #[trigger] conjoined(
                    combine,
                    b,
                    conditions.last(),
                    r,
                );
            lemma_together(combine, f, rest, b);
            assert(b == before);
        }
        if r == together(f, conditions) {
            assert(conjoined(combine, before, conditions.last(), r));
        }
    }
}

proof fn lemma_both_swap(
    f: spec_fn(Seq<char>, Seq<char>) -> Seq<char>,
    a: Option<Seq<char>>,
    b: Option<Seq<char>>,
)
    requires
        a is Some && b is Some ==> order_is_free(f),
    ensures
        both(f, a, b) == both(f, b, a),
{
    if let (Some(x), Some(y)) = (a, b) {
        assert(swaps(f, x, y));
    }
}

proof fn lemma_both_regroup(
    f: spec_fn(Seq<char>, Seq<char>) -> Seq<char>,
    a: Option<Seq<char>>,
    b: Option<Seq<char>>,
    c: Option<Seq<char>>,
)
    requires
        grouping_is_free(f),
    ensures
        both(f, both(f, a, b), c) == both(f, a, both(f, b, c)),
{
    if let (Some(x), Some(y)) = (a, b) {
        if let Some(z) = c {
            assert(regroups(f, x, y, z));
        }
    }
}

proof fn lemma_together_add(
    f: spec_fn(Seq<char>, Seq<char>) -> Seq<char>,
    a: Seq<Option<Seq<char>>>,
    b: Seq<Option<Seq<char>>>,
)
    requires
        grouping_is_free(f),
    ensures
        together(f, a + b) == both(f, together(f, a), together(f, b)),
    decreases b.len(),
{
    if b.len() == 0 {
        assert(a + b =~= a);
    } else {
        lemma_together_add(f, a, b.drop_last());
        assert((a + b).drop_last() =~= a + b.drop_last());
        assert((a + b).last() == b.last());
        lemma_both_regroup(f, together(f, a), together(f, b.drop_last()), b.last());
    }
}

proof fn lemma_first_present_add(a: Seq<Option<Seq<char>>>, b: Seq<Option<Seq<char>>>)
    ensures
        first_present(a + b) == either(first_present(a), first_present(b)),
    decreases b.len(),
{
    if b.len() == 0 {
        assert(a + b =~= a);
    } else {
        lemma_first_present_add(a, b.drop_last());
        assert((a + b).drop_last() =~= a + b.drop_last());
        assert((a + b).last() == b.last());
    }
}

/// The first fallback among the requests for a mod.
pub open spec fn first_fallback(requests: Seq<RequestModel>, key: Seq<char>) -> Option<Seq<char>> {
    first_present(fallback_reqs(of_mod(requests, key)))
}

proof fn lemma_one_present(text: Option<Seq<char>>)
    ensures
        first_present(seq![text]) == text,
{
    assert(seq![text].drop_last() =~= Seq::empty());
    assert(first_present(seq![text].drop_last()) is None);
}

proof fn lemma_one_together(
    f: spec_fn(Seq<char>, Seq<char>) -> Seq<char>,
    condition: Option<Seq<char>>,
)
    ensures
        together(f, seq![condition]) == condition,
{
    assert(seq![condition].drop_last() =~= Seq::empty());
    assert(together(f, seq![condition].drop_last()) is None);
}

proof fn lemma_group_replaced(
    f: spec_fn(Seq<char>, Seq<char>) -> Seq<char>,
    a: Seq<RequestModel>,
    first: RequestModel,
    b: Seq<RequestModel>,
    second: RequestModel,
    c: Seq<RequestModel>,
    merger: RequestModel,
)
    requires
        a.len() + b.len() + c.len() > 0 ==> grouping_is_free(f),
        b.len() > 0 ==> order_is_free(f),
        merger == (RequestModel {
            mod_id: first.mod_id,
            version_req: both(f, first.version_req, second.version_req),
            fallback_req: either(first.fallback_req, second.fallback_req),
        }),
        first_present(fallback_reqs(a)) is Some || first.fallback_req is Some
            || second.fallback_req is None || first_present(fallback_reqs(b)) is None
            || first_present(fallback_reqs(b)) == second.fallback_req,
    ensures
        ({
            let two = a + seq![first] + b + seq![second] + c;
            let one = a + seq![merger] + b + c;
            &&& two[0].mod_id == one[0].mod_id
            &&& together(f, version_reqs(two)) == together(f, version_reqs(one))
            &&& first_present(fallback_reqs(two)) == first_present(fallback_reqs(one))
        }),
{
    let two = a + seq![first] + b + seq![second] + c;
    let one = a + seq![merger] + b + c;
    let va = version_reqs(a);
    let vb = version_reqs(b);
    let vc = version_reqs(c);
    let v1 = seq![first.version_req];
    let v2 = seq![second.version_req];
    let vm = seq![merger.version_req];
    assert(version_reqs(two) =~= va + v1 + vb + v2 + vc);
    assert(version_reqs(one) =~= va + vm + vb + vc);
    lemma_one_together(f, first.version_req);
    lemma_one_together(f, second.version_req);
    lemma_one_together(f, merger.version_req);
    if a.len() + b.len() + c.len() > 0 {
        lemma_together_add(f, va, v1);
        lemma_together_add(f, va + v1, vb);
        lemma_together_add(f, va + v1 + vb, v2);
        lemma_together_add(f, va + v1 + vb + v2, vc);
        lemma_together_add(f, va, vm);
        lemma_together_add(f, va + vm, vb);
        lemma_together_add(f, va + vm + vb, vc);
        let ta = together(f, va);
        let tb = together(f, vb);
        let t1 = first.version_req;
        let t2 = second.version_req;
        // ((a 1) b) 2 is (a (1 2)) b
        lemma_both_regroup(f, both(f, ta, t1), tb, t2);
        lemma_both_swap(f, tb, t2);
        lemma_both_regroup(f, both(f, ta, t1), t2, tb);
        lemma_both_regroup(f, ta, t1, t2);
    } else {
        assert(version_reqs(two) =~= v1.push(second.version_req));
        assert(v1.push(second.version_req).drop_last() =~= v1);
        assert(version_reqs(one) =~= vm);
    }
    let fa = fallback_reqs(a);
    let fb = fallback_reqs(b);
    let fc = fallback_reqs(c);
    let f1 = seq![first.fallback_req];
    let f2 = seq![second.fallback_req];
    let fm = seq![merger.fallback_req];
    assert(fallback_reqs(two) =~= fa + f1 + fb + f2 + fc);
    assert(fallback_reqs(one) =~= fa + fm + fb + fc);
    lemma_one_present(first.fallback_req);
    lemma_one_present(second.fallback_req);
    lemma_one_present(merger.fallback_req);
    lemma_first_present_add(fa, f1);
    lemma_first_present_add(fa + f1, fb);
    lemma_first_present_add(fa + f1 + fb, f2);
    lemma_first_present_add(fa + f1 + fb + f2, fc);
    lemma_first_present_add(fa, fm);
    lemma_first_present_add(fa + fm, fb);
    lemma_first_present_add(fa + fm + fb, fc);
    if a.len() > 0 {
        assert(two[0] == a[0] && one[0] == a[0]);
    } else {
        assert(two[0] == first && one[0] == merger);
    }
}

/// Two requests for one mod may be replaced by their merger, which asks for both conditions and for
/// the first of the two fallbacks: all requests together come down to the same either way.
///
/// The rule that makes one condition of two has to be a function. Where others ask for the same
/// mod, the groups in which it is applied must not matter to it. Only where one of them stands
/// between the two must the order not matter either, and the second fallback must not overtake a
/// different one.
pub proof fn law_two_requests_are_their_merger<C: Fn(&str, &str) -> String>(
    combine: C,
    f: spec_fn(Seq<char>, Seq<char>) -> Seq<char>,
    before: Seq<RequestModel>,
    first: RequestModel,
    between: Seq<RequestModel>,
    second: RequestModel,
    after: Seq<RequestModel>,
    merger: RequestModel,
    r: Seq<RequestModel>,
)
    requires
        combines_as(combine, f),
        lowercase(first.mod_id) == lowercase(second.mod_id),
        asks_for(before + between + after, lowercase(first.mod_id)) ==> grouping_is_free(f),
        asks_for(between, lowercase(first.mod_id)) ==> order_is_free(f),
        ({
            let key = lowercase(first.mod_id);
            ||| first_fallback(before, key) is Some
            ||| first.fallback_req is Some
            ||| second.fallback_req is None
            ||| first_fallback(between, key) is None
            ||| first_fallback(between, key) == second.fallback_req
        }),
        merger == (RequestModel {
            mod_id: first.mod_id,
            version_req: both(f, first.version_req, second.version_req),
            fallback_req: either(first.fallback_req, second.fallback_req),
        }),
    ensures
        merges_to(combine, before + seq![first] + between + seq![second] + after, r)
            <==> merges_to(combine, before + seq![merger] + between + after, r),
{
    let two = before + seq![first] + between + seq![second] + after;
    let one = before + seq![merger] + between + after;
    let key = lowercase(first.mod_id);
    assert forall|k: Seq<char>, x: RequestModel|
        stands_for(combine, #[trigger] of_mod(two, k), x) <==> #[trigger] stands_for(
            combine,
            of_mod(one, k),
            x,
        ) by {
        let a = of_mod(before, k);
        let b = of_mod(between, k);
        let c = of_mod(after, k);
        lemma_of_mod_add(before, seq![first], k);
        lemma_of_mod_add(before + seq![first], between, k);
        lemma_of_mod_add(before + seq![first] + between, seq![second], k);
        lemma_of_mod_add(before + seq![first] + between + seq![second], after, k);
        lemma_of_mod_add(before, seq![merger], k);
        lemma_of_mod_add(before + seq![merger], between, k);
        lemma_of_mod_add(before + seq![merger] + between, after, k);
        lemma_of_one(first, k);
        lemma_of_one(second, k);
        lemma_of_one(merger, k);
        if k == key {
            lemma_of_mod_add(before, between, k);
            lemma_of_mod_add(before + between, after, k);
            lemma_of_mod_keys(before + between + after, k);
            lemma_of_mod_keys(between, k);
            lemma_group_replaced(f, a, first, b, second, c, merger);
            lemma_together(combine, f, version_reqs(of_mod(two, k)), x.version_req);
            lemma_together(combine, f, version_reqs(of_mod(one, k)), x.version_req);
        } else {
            assert(of_mod(two, k) =~= a + b + c);
            assert(of_mod(one, k) =~= a + b + c);
        }
    }
    assert forall|k: Seq<char>| #[trigger] asks_for(two, k) <==> asks_for(one, k) by {
        lemma_same_mods(before, first, between, second, after, merger, k);
    }
    if merges_to(combine, two, r) {
        lemma_merges_alike(combine, two, one, r);
    }
    if merges_to(combine, one, r) {
        lemma_merges_alike(combine, one, two, r);
    }
}

proof fn lemma_same_mods(
    before: Seq<RequestModel>,
    first: RequestModel,
    between: Seq<RequestModel>,
    second: RequestModel,
    after: Seq<RequestModel>,
    merger: RequestModel,
    k: Seq<char>,
)
    requires
        lowercase(first.mod_id) == lowercase(second.mod_id),
        merger.mod_id == first.mod_id,
    ensures
        asks_for(before + seq![first] + between + seq![second] + after, k) <==> asks_for(
            before + seq![merger] + between + after,
            k,
        ),
{
    let two = before + seq![first] + between + seq![second] + after;
    let one = before + seq![merger] + between + after;
    lemma_of_mod_keys(two, k);
    lemma_of_mod_keys(one, k);
    lemma_of_mod_add(before, seq![first], k);
    lemma_of_mod_add(before + seq![first], between, k);
    lemma_of_mod_add(before + seq![first] + between, seq![second], k);
    lemma_of_mod_add(before + seq![first] + between + seq![second], after, k);
    lemma_of_mod_add(before, seq![merger], k);
    lemma_of_mod_add(before + seq![merger], between, k);
    lemma_of_mod_add(before + seq![merger] + between, after, k);
    lemma_of_one(first, k);
    lemma_of_one(second, k);
    lemma_of_one(merger, k);
}

proof fn lemma_merges_alike<C: Fn(&str, &str) -> String>(
    combine: C,
    a: Seq<RequestModel>,
    b: Seq<RequestModel>,
    r: Seq<RequestModel>,
)
    requires
        forall|k: Seq<char>, x: RequestModel|
            stands_for(combine, #[trigger] of_mod(a, k), x) <==> #[trigger] stands_for(
                combine,
                of_mod(b, k),
                x,
            ),
        forall|k: Seq<char>| #[trigger] asks_for(a, k) <==> asks_for(b, k),
        merges_to(combine, a, r),
    ensures
        merges_to(combine, b, r),
{
    assert forall|i: int| 0 <= i < r.len() implies stands_for(
        combine,
        of_mod(b, lowercase(r[i].mod_id)),
        #[trigger] r[i],
    ) by {
        assert(stands_for(combine, of_mod(a, lowercase(r[i].mod_id)), r[i]));
    }
    assert forall|i: int| 0 <= i < b.len() implies asks_for(
        r,
        lowercase(#[trigger] b[i].mod_id),
    ) by {
        let k = lowercase(b[i].mod_id);
        assert(asks_for(b, k));
        assert(asks_for(a, k));
        let j = choose|j: int| 0 <= j < a.len() && lowercase(#[trigger] a[j].mod_id) == k;
        assert(asks_for(r, lowercase(a[j].mod_id)));
    }
}

/// A download is what the rule picks: it is of a mod that was asked for and that the site has, and
/// its version and url are the rule's answer to a question that names the user's pinned game
/// version, says whether unstable releases are allowed, and asks for both the request's condition
/// and the user's pin. The fallback is asked for only where the condition itself was refused.
pub proof fn law_download_is_what_the_rule_picks<
    R,
    C: Fn(&str, &str) -> String,
    P: Fn(&R, &Package, &str, bool) -> Pick,
>(
    combine: C,
    rule: P,
    requests: Seq<RequestModel>,
    found: Map<Seq<char>, ApiModModel<R>>,
    options: ResolveOptions,
    packages: Seq<PackageModel>,
    outcomes: Seq<OutcomeModel>,
    i: int,
    pin: Option<Seq<char>>,
)
    requires
        outcomes_may_be(combine, rule, requests, found, options, packages, outcomes),
        0 <= i < requests.len(),
        outcomes[i] is Ok,
        options.apply_config_pins ==> pinned_to(packages, requests[i].mod_id, pin),
        !options.apply_config_pins ==> pin is None,
    ensures
        ({
            let request = requests[i];
            let install = outcomes[i]->Ok_0;
            let api_mod = found[request.mod_id];
            &&& found.contains_key(request.mod_id)
            &&& install.mod_id == lowercase(request.mod_id)
            &&& api_mod.name is Some ==> install.mod_name == api_mod.name->0
            &&& api_mod.name is None ==> install.mod_name.len() == 0
            &&& install.current_file_path is None
            &&& exists|condition: Option<Seq<char>>, wanted: Option<Seq<char>>, answer: Pick|
                {
                    &&& #[trigger] asks_both(combine, condition, pin, wanted)
                    &&& #[trigger] answered(
                        rule,
                        api_mod.releases,
                        request.mod_id,
                        wanted,
                        options.pinned_game_version@,
                        options.allow_unstable,
                        answer,
                    )
                    &&& answer is Ok
                    &&& answer->Ok_0.0@ == install.version_to_install
                    &&& answer->Ok_0.1@ == install.download_url
                    &&& condition == request.version_req || (request.fallback_req is Some
                        && condition == request.fallback_req && exists|
                        refused: Option<Seq<char>>,
                        refusal: Pick,
                    |
                        asks_both(combine, request.version_req, pin, refused)
                            && #[trigger] answered(
                            rule,
                            api_mod.releases,
                            request.mod_id,
                            refused,
                            options.pinned_game_version@,
                            options.allow_unstable,
                            refusal,
                        ) && refusal is Err)
                }
        }),
{
    let request = requests[i];
    let outcome = outcomes[i];
    let game = options.pinned_game_version@;
    let unstable = options.allow_unstable;
    let used = applied_pin(options, packages, request.mod_id);
    law_pin_is_that_of_the_first_package(packages, request.mod_id, pin);
    assert(used == pin);
    assert(resolves_to(
        combine,
        rule,
        request,
        lookup(found, request.mod_id),
        used,
        game,
        unstable,
        outcome,
    ));
    assert(found.contains_key(request.mod_id));
    let api_mod = found[request.mod_id];
    let first = choose|first: PickModel| #[trigger]
        picks_under(
            combine,
            rule,
            api_mod.releases,
            request.mod_id,
            request.version_req,
            pin,
            game,
            unstable,
            first,
        ) && match first {
            Ok((version, url)) => outcome == Ok::<InstallModel, FailureModel>(
                fresh_install(lowercase(request.mod_id), api_mod, version, url),
            ),
            Err(reason) => {
                let failure = FailureModel::NoMatchingVersion(request.mod_id, reason);
                match request.fallback_req {
                    None => outcome == Err::<InstallModel, FailureModel>(failure),
                    Some(fallback) => exists|second: PickModel| #[trigger]
                        picks_under(
                            combine,
                            rule,
                            api_mod.releases,
                            request.mod_id,
                            Some(fallback),
                            pin,
                            game,
                            unstable,
                            second,
                        ) && match second {
                            Ok((version, url)) => outcome == Ok::<InstallModel, FailureModel>(
                                fresh_install(lowercase(request.mod_id), api_mod, version, url),
                            ),
                            Err(_) => outcome == Err::<InstallModel, FailureModel>(failure),
                        },
                }
            },
        };
    law_pick_answers_the_question(
        combine,
        rule,
        api_mod.releases,
        request.mod_id,
        request.version_req,
        pin,
        game,
        unstable,
        first,
    );
    if first is Err {
        let second = choose|second: PickModel| #[trigger]
            picks_under(
                combine,
                rule,
                api_mod.releases,
                request.mod_id,
                request.fallback_req,
                pin,
                game,
                unstable,
                second,
            ) && match second {
                Ok((version, url)) => outcome == Ok::<InstallModel, FailureModel>(
                    fresh_install(lowercase(request.mod_id), api_mod, version, url),
                ),
                Err(_) => false,
            };
        law_pick_answers_the_question(
            combine,
            rule,
            api_mod.releases,
            request.mod_id,
            request.fallback_req,
            pin,
            game,
            unstable,
            second,
        );
    }
}

/// A failure has its reason: the mod site does not have the mod, or the rule refused the request's
/// condition with just this reason, and refused the fallback too where there is one.
pub proof fn law_failure_has_its_reason<
    R,
    C: Fn(&str, &str) -> String,
    P: Fn(&R, &Package, &str, bool) -> Pick,
>(
    combine: C,
    rule: P,
    requests: Seq<RequestModel>,
    found: Map<Seq<char>, ApiModModel<R>>,
    options: ResolveOptions,
    packages: Seq<PackageModel>,
    outcomes: Seq<OutcomeModel>,
    i: int,
    pin: Option<Seq<char>>,
)
    requires
        outcomes_may_be(combine, rule, requests, found, options, packages, outcomes),
        0 <= i < requests.len(),
        outcomes[i] is Err,
        options.apply_config_pins ==> pinned_to(packages, requests[i].mod_id, pin),
        !options.apply_config_pins ==> pin is None,
    ensures
        ({
            let request = requests[i];
            let api_mod = found[request.mod_id];
            match outcomes[i]->Err_0 {
                FailureModel::NotFound(mod_id) => mod_id == request.mod_id && !found.contains_key(
                    mod_id,
                ),
                FailureModel::NoMatchingVersion(mod_id, reason) => {
                    &&& mod_id == request.mod_id
                    &&& found.contains_key(mod_id)
                    &&& exists|wanted: Option<Seq<char>>, answer: Pick|
                        asks_both(combine, request.version_req, pin, wanted) && #[trigger] answered(
                            rule,
                            api_mod.releases,
                            request.mod_id,
                            wanted,
                            options.pinned_game_version@,
                            options.allow_unstable,
                            answer,
                        ) && answer is Err && answer->Err_0@ == reason
                    &&& request.fallback_req is Some ==> exists|
                        wanted: Option<Seq<char>>,
                        answer: Pick,
                    |
                        asks_both(combine, request.fallback_req, pin, wanted)
                            && #[trigger] answered(
                            rule,
                            api_mod.releases,
                            request.mod_id,
                            wanted,
                            options.pinned_game_version@,
                            options.allow_unstable,
                            answer,
                        ) && answer is Err
                },
            }
        }),
{
    let request = requests[i];
    let outcome = outcomes[i];
    let game = options.pinned_game_version@;
    let unstable = options.allow_unstable;
    let used = applied_pin(options, packages, request.mod_id);
    law_pin_is_that_of_the_first_package(packages, request.mod_id, pin);
    assert(used == pin);
    assert(resolves_to(
        combine,
        rule,
        request,
        lookup(found, request.mod_id),
        used,
        game,
        unstable,
        outcome,
    ));
    if found.contains_key(request.mod_id) {
        let api_mod = found[request.mod_id];
        let first = choose|first: PickModel| #[trigger]
            picks_under(
                combine,
                rule,
                api_mod.releases,
                request.mod_id,
                request.version_req,
                pin,
                game,
                unstable,
                first,
            ) && match first {
                Ok((version, url)) => outcome == Ok::<InstallModel, FailureModel>(
                    fresh_install(lowercase(request.mod_id), api_mod, version, url),
                ),
                Err(reason) => {
                    let failure = FailureModel::NoMatchingVersion(request.mod_id, reason);
                    match request.fallback_req {
                        None => outcome == Err::<InstallModel, FailureModel>(failure),
                        Some(fallback) => exists|second: PickModel| #[trigger]
                            picks_under(
                                combine,
                                rule,
                                api_mod.releases,
                                request.mod_id,
                                Some(fallback),
                                pin,
                                game,
                                unstable,
                                second,
                            ) && match second {
                                Ok((version, url)) => outcome == Ok::<InstallModel, FailureModel>(
                                    fresh_install(
                                        lowercase(request.mod_id),
                                        api_mod,
                                        version,
                                        url,
                                    ),
                                ),
                                Err(_) => outcome == Err::<InstallModel, FailureModel>(failure),
                            },
                    }
                },
            };
        law_pick_answers_the_question(
            combine,
            rule,
            api_mod.releases,
            request.mod_id,
            request.version_req,
            pin,
            game,
            unstable,
            first,
        );
        assert(first is Err);
        assert(outcome->Err_0 == FailureModel::NoMatchingVersion(
            request.mod_id,
            first->Err_0,
        ));
        if let Some(fallback) = request.fallback_req {
            let second = choose|second: PickModel| #[trigger]
                picks_under(
                    combine,
                    rule,
                    api_mod.releases,
                    request.mod_id,
                    Some(fallback),
                    pin,
                    game,
                    unstable,
                    second,
                ) && match second {
                    Ok((version, url)) => outcome == Ok::<InstallModel, FailureModel>(
                        fresh_install(lowercase(request.mod_id), api_mod, version, url),
                    ),
                    Err(_) => true,
                };
            law_pick_answers_the_question(
                combine,
                rule,
                api_mod.releases,
                request.mod_id,
                Some(fallback),
                pin,
                game,
                unstable,
                second,
            );
            assert(second is Err);
        }
    } else {
        assert(outcome->Err_0 == FailureModel::NotFound(request.mod_id));
    }
}

/// The downloads are those among the outcomes and the failures are the others: one outcome gives
/// one entry, on its side, and the entries keep the order of the outcomes.
pub proof fn law_outcomes_are_sorted_out(a: Seq<OutcomeModel>, b: Seq<OutcomeModel>)
    ensures
        installs_of(a + b) == installs_of(a) + installs_of(b),
        failures_of(a + b) == failures_of(a) + failures_of(b),
        forall|install: InstallModel| #[trigger]
            installs_of(seq![Ok::<InstallModel, FailureModel>(install)]) == seq![install],
        forall|failure: FailureModel| #[trigger]
            installs_of(seq![Err::<InstallModel, FailureModel>(failure)]).len() == 0,
        forall|install: InstallModel| #[trigger]
            failures_of(seq![Ok::<InstallModel, FailureModel>(install)]).len() == 0,
        forall|failure: FailureModel| #[trigger]
            failures_of(seq![Err::<InstallModel, FailureModel>(failure)]) == seq![failure],
{
    lemma_split_outcomes(a, b);
    assert forall|o: OutcomeModel| true implies #[trigger] installs_of(seq![o]) == (match o {
        Ok(install) => seq![install],
        Err(_) => Seq::empty(),
    }) && failures_of(seq![o]) == (match o {
        Ok(_) => Seq::empty(),
        Err(failure) => seq![failure],
    }) by {
        assert(seq![o].drop_last() =~= Seq::empty());
        assert(installs_of(seq![o].drop_last()) =~= Seq::empty());
        assert(failures_of(seq![o].drop_last()) =~= Seq::empty());
        if let Ok(install) = o {
            assert(installs_of(seq![o]) =~= seq![install]);
        }
        if let Err(failure) = o {
            assert(failures_of(seq![o]) =~= seq![failure]);
        }
    }
    assert forall|install: InstallModel| #[trigger]
        installs_of(seq![Ok::<InstallModel, FailureModel>(install)]) == seq![install] by {
        let o = Ok::<InstallModel, FailureModel>(install);
        assert(installs_of(seq![o]) == seq![install]);
    }
    assert forall|install: InstallModel| #[trigger]
        failures_of(seq![Ok::<InstallModel, FailureModel>(install)]).len() == 0 by {
        let o = Ok::<InstallModel, FailureModel>(install);
        assert(installs_of(seq![o]) == seq![install]);
    }
    assert forall|failure: FailureModel| #[trigger]
        installs_of(seq![Err::<InstallModel, FailureModel>(failure)]).len() == 0 by {
        let o = Err::<InstallModel, FailureModel>(failure);
        assert(installs_of(seq![o]) == Seq::<InstallModel>::empty());
    }
    assert forall|failure: FailureModel| #[trigger]
        failures_of(seq![Err::<InstallModel, FailureModel>(failure)]) == seq![failure] by {
        let o = Err::<InstallModel, FailureModel>(failure);
        assert(installs_of(seq![o]) == Seq::<InstallModel>::empty());
    }
}

/// Every download comes of one of the outcomes.
pub proof fn lemma_install_is_an_outcome(outcomes: Seq<OutcomeModel>, k: int) -> (i: int)
    requires
        0 <= k < installs_of(outcomes).len(),
    ensures
        0 <= i < outcomes.len(),
        outcomes[i] == Ok::<InstallModel, FailureModel>(installs_of(outcomes)[k]),
    decreases outcomes.len(),
{
    let before = installs_of(outcomes.drop_last());
    if k < before.len() {
        let i = lemma_install_is_an_outcome(outcomes.drop_last(), k);
        assert(outcomes.drop_last()[i] == outcomes[i]);
        i
    } else {
        outcomes.len() - 1
    }
}

/// Every request that is not for the base game is still asked for.
pub proof fn law_other_mods_are_asked_for(requests: Seq<RequestModel>, base_game: Seq<bool>, i: int)
    requires
        base_game.len() == requests.len(),
        0 <= i < requests.len(),
        !base_game[i],
    ensures
        downloadable(requests, base_game).contains(requests[i]),
    decreases requests.len(),
{
    let before = downloadable(requests.drop_last(), base_game.drop_last());
    let all = downloadable(requests, base_game);
    if i < requests.len() - 1 {
        law_other_mods_are_asked_for(requests.drop_last(), base_game.drop_last(), i);
        let k = choose|k: int| 0 <= k < before.len() && before[k] == requests[i];
        assert(all[k] == requests[i]);
    } else {
        assert(all[before.len() as int] == requests[i]);
    }
}

/// The requests that are left keep their order: what is left of more requests comes behind, and of
/// one request just itself is left, or nothing where it is for the base game.
pub proof fn law_requests_left_keep_their_order(
    a: Seq<RequestModel>,
    a_base: Seq<bool>,
    b: Seq<RequestModel>,
    b_base: Seq<bool>,
)
    requires
        a.len() == a_base.len(),
        b.len() == b_base.len(),
    ensures
        downloadable(a + b, a_base + b_base) == downloadable(a, a_base) + downloadable(b, b_base),
        a.len() == 1 && a_base[0] ==> downloadable(a, a_base).len() == 0,
        a.len() == 1 && !a_base[0] ==> downloadable(a, a_base) == a,
    decreases b.len(),
{
    if a.len() == 1 {
        assert(downloadable(a.drop_last(), a_base.drop_last()) =~= Seq::empty());
        assert(!a_base[0] ==> downloadable(a, a_base) =~= a);
    }
    if b.len() == 0 {
        assert(a + b =~= a);
        assert(a_base + b_base =~= a_base);
        assert(downloadable(a, a_base) + downloadable(b, b_base) =~= downloadable(a, a_base));
    } else {
        law_requests_left_keep_their_order(a, a_base, b.drop_last(), b_base.drop_last());
        assert((a + b).drop_last() =~= a + b.drop_last());
        assert((a_base + b_base).drop_last() =~= a_base + b_base.drop_last());
        assert(downloadable(a + b, a_base + b_base) =~= downloadable(a, a_base) + downloadable(
            b,
            b_base,
        ));
    }
}

/// Whether one of the requests is for a mod with just this id that the rule may answer not to be
/// part of the base game.
pub open spec fn is_wanted<B: Fn(&str) -> bool>(
    rule: B,
    requests: Seq<RequestModel>,
    mod_id: Seq<char>,
) -> bool {
    exists|i: int|
        0 <= i < requests.len() && (#[trigger] requests[i]).mod_id == mod_id && replies(
            rule,
            mod_id,
            false,
        )
}

/// What is asked for are just the mods of requests that are not for the base game, and all of them.
pub proof fn law_prepared_requests_are_wanted<
    B: Fn(&str) -> bool,
    C: Fn(&str, &str) -> String,
>(
    rule: B,
    combine: C,
    requests: Seq<RequestModel>,
    base_game: Seq<bool>,
    r: Seq<RequestModel>,
)
    requires
        base_game.len() == requests.len(),
        forall|i: int|
            0 <= i < requests.len() ==> answers(rule, requests[i].mod_id, #[trigger] base_game[i]),
        merges_to(combine, downloadable(requests, base_game), r),
    ensures
        forall|k: int| 0 <= k < r.len() ==> is_wanted(rule, requests, (#[trigger] r[k]).mod_id),
        forall|i: int|
            0 <= i < requests.len() ==> replies(rule, (#[trigger] requests[i]).mod_id, true)
                || asks_for(r, lowercase(requests[i].mod_id)),
{
    let kept = downloadable(requests, base_game);
    law_base_game_never_asked_for(requests, base_game);
    assert forall|k: int| 0 <= k < r.len() implies is_wanted(
        rule,
        requests,
        (#[trigger] r[k]).mod_id,
    ) by {
        law_one_request_for_each_mod(combine, kept, r, 0, k);
        let j = choose|j: int| 0 <= j < kept.len() && (#[trigger] kept[j]).mod_id == r[k].mod_id;
        let i = choose|i: int|
            0 <= i < requests.len() && requests[i] == kept[j] && !base_game[i];
        assert(answers(rule, requests[i].mod_id, base_game[i]));
    }
    assert forall|i: int| 0 <= i < requests.len() implies replies(
        rule,
        (#[trigger] requests[i]).mod_id,
        true,
    ) || asks_for(r, lowercase(requests[i].mod_id)) by {
        assert(answers(rule, requests[i].mod_id, base_game[i]));
        if !base_game[i] {
            law_other_mods_are_asked_for(requests, base_game, i);
            let j = choose|j: int| 0 <= j < kept.len() && kept[j] == requests[i];
            assert(asks_for(r, lowercase(kept[j].mod_id)));
        }
    }
}

/// A request without conditions for a mod that is not pinned gets what the rule answers when it is
/// asked without conditions, for the user's game version and permission of unstable releases.
pub proof fn law_plain_request_gets_the_plain_pick<
    R,
    C: Fn(&str, &str) -> String,
    P: Fn(&R, &Package, &str, bool) -> Pick,
>(
    combine: C,
    rule: P,
    requests: Seq<RequestModel>,
    found: Map<Seq<char>, ApiModModel<R>>,
    options: ResolveOptions,
    packages: Seq<PackageModel>,
    outcomes: Seq<OutcomeModel>,
    i: int,
)
    requires
        outcomes_may_be(combine, rule, requests, found, options, packages, outcomes),
        0 <= i < requests.len(),
        outcomes[i] is Ok,
        requests[i].version_req is None,
        requests[i].fallback_req is None,
        options.apply_config_pins ==> pinned_to(packages, requests[i].mod_id, None),
    ensures
        exists|package: &Package, version: &str, answer: Pick|
            {
                &&& #[trigger] call_ensures(
                    rule,
                    (
                        &found[requests[i].mod_id].releases,
                        package,
                        version,
                        options.allow_unstable,
                    ),
                    answer,
                )
                &&& package.mod_id@ == requests[i].mod_id
                &&& package.pinned_version is None
                &&& version@ == options.pinned_game_version@
                &&& answer is Ok
                &&& answer->Ok_0.0@ == outcomes[i]->Ok_0.version_to_install
                &&& answer->Ok_0.1@ == outcomes[i]->Ok_0.download_url
            },
{
    law_download_is_what_the_rule_picks(
        combine,
        rule,
        requests,
        found,
        options,
        packages,
        outcomes,
        i,
        None,
    );
    let answer = choose|answer: Pick| #[trigger]
        answered(
            rule,
            found[requests[i].mod_id].releases,
            requests[i].mod_id,
            None,
            options.pinned_game_version@,
            options.allow_unstable,
            answer,
        ) && answer is Ok && answer->Ok_0.0@ == outcomes[i]->Ok_0.version_to_install
            && answer->Ok_0.1@ == outcomes[i]->Ok_0.download_url;
    law_answer_comes_of_a_call(
        rule,
        found[requests[i].mod_id].releases,
        requests[i].mod_id,
        None,
        options.pinned_game_version@,
        options.allow_unstable,
        answer,
    );
}

/// The requests for a mod come together one by one. A request for a mod that nobody asked for before
/// stands for itself. Otherwise it adds its condition behind those of the requests before it, by
/// asking for both, its fallback counts only where they have none, and their spelling stays.
pub proof fn law_requests_for_a_mod_add_up<C: Fn(&str, &str) -> String>(
    combine: C,
    requests: Seq<RequestModel>,
    request: RequestModel,
    r: RequestModel,
)
    requires
        stands_for(
            combine,
            of_mod(requests.push(request), lowercase(request.mod_id)),
            r,
        ),
    ensures
        (forall|i: int|
            0 <= i < requests.len() ==> lowercase((#[trigger] requests[i]).mod_id) != lowercase(
                request.mod_id,
            )) ==> r == request,
        (exists|i: int|
            0 <= i < requests.len() && lowercase((#[trigger] requests[i]).mod_id) == lowercase(
                request.mod_id,
            )) ==> exists|before: RequestModel|
            {
                &&& #[trigger] stands_for(
                    combine,
                    of_mod(requests, lowercase(request.mod_id)),
                    before,
                )
                &&& r.mod_id == before.mod_id
                &&& asks_both(combine, before.version_req, request.version_req, r.version_req)
                &&& r.fallback_req == (if before.fallback_req is Some {
                    before.fallback_req
                } else {
                    request.fallback_req
                })
            },
{
    let key = lowercase(request.mod_id);
    let group = of_mod(requests, key);
    let all = of_mod(requests.push(request), key);
    assert(requests.push(request).drop_last() =~= requests);
    assert(all == group.push(request));
    lemma_of_mod_empty(requests, key);
    let conditions = version_reqs(all);
    let fallbacks = fallback_reqs(all);
    assert(conditions.drop_last() =~= version_reqs(group));
    assert(fallbacks.drop_last() =~= fallback_reqs(group));
    assert(conditions.last() == request.version_req);
    assert(fallbacks.last() == request.fallback_req);
    let version = choose|version: Option<Seq<char>>|
        all_conjoined(combine, conditions.drop_last(), version) && #[trigger] conjoined(
            combine,
            version,
            conditions.last(),
            r.version_req,
        );
    law_conjoined_asks_both(combine, version, request.version_req, r.version_req);
    if group.len() == 0 {
        assert(version is None);
        assert(first_present(fallbacks.drop_last()) is None);
        assert(r =~= request);
    } else {
        let before = RequestModel {
            mod_id: group[0].mod_id,
            version_req: version,
            fallback_req: first_present(fallback_reqs(group)),
        };
        assert(all[0] == group[0]);
        assert(stands_for(combine, group, before));
    }
}

proof fn lemma_of_mod_empty(requests: Seq<RequestModel>, key: Seq<char>)
    ensures
        of_mod(requests, key).len() == 0 <==> forall|i: int|
            0 <= i < requests.len() ==> lowercase((#[trigger] requests[i]).mod_id) != key,
    decreases requests.len(),
{
    if requests.len() > 0 {
        let rest = requests.drop_last();
        lemma_of_mod_empty(rest, key);
        let n = requests.len() - 1;
        if of_mod(requests, key).len() == 0 {
            assert forall|i: int| 0 <= i < requests.len() implies lowercase(
                (#[trigger] requests[i]).mod_id,
            ) != key by {
                if i < n {
                    assert(rest[i] == requests[i]);
                }
            }
        }
        if forall|i: int|
            0 <= i < requests.len() ==> lowercase((#[trigger] requests[i]).mod_id) != key {
            assert forall|i: int| 0 <= i < rest.len() implies lowercase(
                (#[trigger] rest[i]).mod_id,
            ) != key by {
                assert(rest[i] == requests[i]);
            }
            assert(requests[n] == requests.last());
        }
    }
}

/// The request that stands for a mod is the only one for it. Every mod that was asked for has one,
/// and there is none for a mod that was not asked for.
pub proof fn law_one_request_for_each_mod<C: Fn(&str, &str) -> String>(
    combine: C,
    requests: Seq<RequestModel>,
    r: Seq<RequestModel>,
    i: int,
    j: int,
)
    requires
        merges_to(combine, requests, r),
    ensures
        0 <= i < j < r.len() ==> lowercase(r[i].mod_id) != lowercase(r[j].mod_id),
        0 <= i < requests.len() ==> exists|k: int|
            0 <= k < r.len() && lowercase((#[trigger] r[k]).mod_id) == lowercase(
                requests[i].mod_id,
            ),
        0 <= j < r.len() ==> exists|k: int|
            0 <= k < requests.len() && (#[trigger] requests[k]).mod_id == r[j].mod_id,
{
    if 0 <= i < requests.len() {
        assert(asks_for(r, lowercase(requests[i].mod_id)));
        let k = choose|k: int|
            0 <= k < r.len() && lowercase(#[trigger] r[k].mod_id) == lowercase(requests[i].mod_id);
        assert(lowercase(r[k].mod_id) == lowercase(requests[i].mod_id));
    }
    if 0 <= j < r.len() {
        assert(stands_for(combine, of_mod(requests, lowercase(r[j].mod_id)), r[j]));
        let k = lemma_of_mod_member(requests, lowercase(r[j].mod_id), 0);
        assert(requests[k].mod_id == r[j].mod_id);
    }
}

proof fn lemma_of_mod_member(requests: Seq<RequestModel>, key: Seq<char>, k: int) -> (i: int)
    requires
        0 <= k < of_mod(requests, key).len(),
    ensures
        0 <= i < requests.len(),
        requests[i] == of_mod(requests, key)[k],
    decreases requests.len(),
{
    let rest = requests.drop_last();
    if k < of_mod(rest, key).len() {
        let i = lemma_of_mod_member(rest, key, k);
        assert(requests[i] == rest[i]);
        i
    } else {
        requests.len() - 1
    }
}

} // verus!
