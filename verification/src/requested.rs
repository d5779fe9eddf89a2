//! What the user types: mods, each with a version behind it or without.

use crate::answers::{answers, askable, splits};
use crate::keyed::ModMap;
use vstd::prelude::*;

verus! {

/// Whether `rule` may split the typed texts into these mod ids and versions.
pub open spec fn splits_all<F: Fn(&str) -> (String, Option<String>)>(
    rule: F,
    typed: Seq<Seq<char>>,
    parts: Seq<(Seq<char>, Option<Seq<char>>)>,
) -> bool {
    &&& parts.len() == typed.len()
    &&& forall|i: int|
        0 <= i < typed.len() ==> splits(rule, typed[i], (#[trigger] parts[i]).0, parts[i].1)
}

/// The mods with the versions that were typed behind them. Where a mod was typed several times,
/// the last one counts.
pub open spec fn last_of_each(parts: Seq<(Seq<char>, Option<Seq<char>>)>) -> Map<
    Seq<char>,
    Option<Seq<char>>,
>
    decreases parts.len(),
{
    if parts.len() == 0 {
        Map::empty()
    } else {
        last_of_each(parts.drop_last()).insert(parts.last().0, parts.last().1)
    }
}

/// Takes the mods and the versions out of what the user typed. `split_modid_version` splits a
/// text at the version.
pub fn requested_mods<S: Fn(&str) -> (String, Option<String>)>(
    typed: &Vec<String>,
    split_modid_version: &S,
) -> (r: ModMap<Option<String>>)
    requires
        askable(*split_modid_version),
    ensures
        exists|parts: Seq<(Seq<char>, Option<Seq<char>>)>| #[trigger]
            splits_all(*split_modid_version, typed.deep_view(), parts) && r@ == last_of_each(parts),
        forall|id: Seq<char>| #[trigger]
            r@.contains_key(id) ==> is_typed(
                *split_modid_version,
                typed.deep_view(),
                id,
                r@[id],
            ),
        forall|i: int|
            0 <= i < typed.len() ==> is_taken_up(
                *split_modid_version,
                #[trigger] typed.deep_view()[i],
                r@,
            ),
{
    let mut r: ModMap<Option<String>> = ModMap::new();
    let ghost mut parts: Seq<(Seq<char>, Option<Seq<char>>)> = Seq::empty();
    let mut i: usize = 0;
    while i < typed.len()
        invariant
            i <= typed.len(),
            askable(*split_modid_version),
            parts.len() == i,
            forall|j: int|
                0 <= j < i ==> splits(
                    *split_modid_version,
                    typed.deep_view()[j],
                    (#[trigger] parts[j]).0,
                    parts[j].1,
                ),
            r@ == last_of_each(parts),
        decreases typed.len() - i,
    {
        let split = split_modid_version(typed[i].as_str());
        let ghost before = parts;
        proof {
            assert(typed.deep_view()[i as int] == typed[i as int]@);
            assert(answers(*split_modid_version, typed[i as int]@, split));
            assert(splits(
                *split_modid_version,
                typed[i as int]@,
                split.0@,
                split.1.deep_view(),
            ));
            parts = before.push((split.0@, split.1.deep_view()));
            assert(parts.drop_last() =~= before);
        }
        r.insert(split.0, split.1);
        i = i + 1;
    }
    assert(splits_all(*split_modid_version, typed.deep_view(), parts));
    proof {
        law_requests_are_what_was_typed(*split_modid_version, typed.deep_view(), parts);
    }
    r
}

/// Whether one of the typed texts is split by the rule into just this id and this version.
pub open spec fn is_typed<F: Fn(&str) -> (String, Option<String>)>(
    rule: F,
    typed: Seq<Seq<char>>,
    id: Seq<char>,
    version: Option<Seq<char>>,
) -> bool {
    exists|x: &str, split: (String, Option<String>)| #[trigger]
        call_ensures(rule, (x,), split) && typed.contains(x@) && split.0@ == id
            && split.1.deep_view() == version
}

/// Whether the mod into whose id the rule splits a text is among the requests.
pub open spec fn is_taken_up<F: Fn(&str) -> (String, Option<String>)>(
    rule: F,
    text: Seq<char>,
    requests: Map<Seq<char>, Option<Seq<char>>>,
) -> bool {
    exists|x: &str, split: (String, Option<String>)| #[trigger]
        call_ensures(rule, (x,), split) && x@ == text && requests.contains_key(split.0@)
}

/// Where a mod was typed several times, the last one counts. Nothing is requested that was not
/// typed.
pub proof fn law_last_typed_counts(parts: Seq<(Seq<char>, Option<Seq<char>>)>, id: Seq<char>)
    ensures
        last_of_each(parts).contains_key(id) <==> exists|i: int|
            0 <= i < parts.len() && (#[trigger] parts[i]).0 == id,
        last_of_each(parts).contains_key(id) ==> exists|i: int|
            0 <= i < parts.len() && (#[trigger] parts[i]).0 == id && last_of_each(parts)[id]
                == parts[i].1 && forall|j: int|
                i < j < parts.len() ==> (#[trigger] parts[j]).0 != id,
    decreases parts.len(),
{
    if parts.len() > 0 {
        let rest = parts.drop_last();
        let n = parts.len() - 1;
        law_last_typed_counts(rest, id);
        if parts[n].0 == id {
            assert(last_of_each(parts)[id] == parts[n].1);
        } else if last_of_each(rest).contains_key(id) {
            let i = choose|i: int|
                0 <= i < rest.len() && (#[trigger] rest[i]).0 == id && last_of_each(rest)[id]
                    == rest[i].1 && forall|j: int|
                    i < j < rest.len() ==> (#[trigger] rest[j]).0 != id;
            assert(parts[i] == rest[i]);
            assert forall|j: int| i < j < parts.len() implies (#[trigger] parts[j]).0 != id by {
                if j < n {
                    assert(parts[j] == rest[j]);
                }
            }
        } else {
            assert forall|i: int| 0 <= i < parts.len() implies (#[trigger] parts[i]).0 != id by {
                if i < n {
                    assert(parts[i] == rest[i]);
                }
            }
        }
    }
}

/// What is requested is what was typed, split by the rule: every typed mod is requested, and every
/// request is of a mod with a version, or without, that was typed.
pub proof fn law_requests_are_what_was_typed<F: Fn(&str) -> (String, Option<String>)>(
    rule: F,
    typed: Seq<Seq<char>>,
    parts: Seq<(Seq<char>, Option<Seq<char>>)>,
)
    requires
        splits_all(rule, typed, parts),
    ensures
        forall|id: Seq<char>| #[trigger]
            last_of_each(parts).contains_key(id) ==> is_typed(
                rule,
                typed,
                id,
                last_of_each(parts)[id],
            ),
        forall|i: int|
            0 <= i < typed.len() ==> is_taken_up(rule, #[trigger] typed[i], last_of_each(parts)),
{
    let requests = last_of_each(parts);
    assert forall|id: Seq<char>| #[trigger] requests.contains_key(id) implies is_typed(
        rule,
        typed,
        id,
        requests[id],
    ) by {
        law_last_typed_counts(parts, id);
        let i = choose|i: int|
            0 <= i < parts.len() && (#[trigger] parts[i]).0 == id && requests[id] == parts[i].1
                && forall|j: int| i < j < parts.len() ==> (#[trigger] parts[j]).0 != id;
        assert(splits(rule, typed[i], parts[i].0, parts[i].1));
        let split = choose|r: (String, Option<String>)| #[trigger]
            answers(rule, typed[i], r) && r.deep_view() == (parts[i].0, parts[i].1);
        let x = choose|x: &str| x@ == typed[i] && #[trigger] call_ensures(rule, (x,), split);
        assert(typed.contains(x@));
        assert(call_ensures(rule, (x,), split));
    }
    assert forall|i: int| 0 <= i < typed.len() implies is_taken_up(
        rule,
        #[trigger] typed[i],
        requests,
    ) by {
        law_last_typed_counts(parts, parts[i].0);
        assert(splits(rule, typed[i], parts[i].0, parts[i].1));
        let split = choose|r: (String, Option<String>)| #[trigger]
            answers(rule, typed[i], r) && r.deep_view() == (parts[i].0, parts[i].1);
        let x = choose|x: &str| x@ == typed[i] && #[trigger] call_ensures(rule, (x,), split);
        assert(call_ensures(rule, (x,), split));
    }
}

} // verus!
