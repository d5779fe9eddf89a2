//! What the version rules and the other helpers that are handed in may answer.
//!
//! Nothing is supposed of a helper but that it can be called on every text. What is proved of a
//! function that asks one holds whatever it answers.

use crate::keyed::in_order;
use crate::package::{Package, PackageModel};
use vstd::prelude::*;

verus! {

/// Whether `rule` can be asked about any text.
pub open spec fn askable<R, F: Fn(&str) -> R>(rule: F) -> bool {
    forall|x: &str| #[trigger] call_requires(rule, (x,))
}

/// Whether `rule` may answer `r` on the text `s`.
pub open spec fn answers<R, F: Fn(&str) -> R>(rule: F, s: Seq<char>, r: R) -> bool {
    exists|x: &str| x@ == s && #[trigger] call_ensures(rule, (x,), r)
}

/// Whether `rule` can be asked about any two texts.
pub open spec fn combinable<C: Fn(&str, &str) -> String>(rule: C) -> bool {
    forall|x: &str, y: &str| #[trigger] call_requires(rule, (x, y))
}

/// Whether `rule` may make the text `r` of the texts `a` and `b`.
pub open spec fn combines<C: Fn(&str, &str) -> String>(
    rule: C,
    a: Seq<char>,
    b: Seq<char>,
    r: Seq<char>,
) -> bool {
    exists|x: &str, y: &str, z: String|
        x@ == a && y@ == b && z@ == r && #[trigger] call_ensures(rule, (x, y), z)
}

/// Whether `rule` makes one text of two as a function does.
pub open spec fn combines_once<C: Fn(&str, &str) -> String>(rule: C) -> bool {
    forall|a: Seq<char>, b: Seq<char>, x: Seq<char>, y: Seq<char>| #[trigger]
        combines(rule, a, b, x) && #[trigger] combines(rule, a, b, y) ==> x == y
}

/// Whether `rule` makes of two texts just what `f` makes of them.
pub open spec fn combines_as<C: Fn(&str, &str) -> String>(
    rule: C,
    f: spec_fn(Seq<char>, Seq<char>) -> Seq<char>,
) -> bool {
    forall|a: Seq<char>, b: Seq<char>, r: Seq<char>| #[trigger]
        combines(rule, a, b, r) <==> r == f(a, b)
}

/// Whether `rule` may split the text `s` into the mod id `id` and the version `version`.
pub open spec fn splits<F: Fn(&str) -> (String, Option<String>)>(
    rule: F,
    s: Seq<char>,
    id: Seq<char>,
    version: Option<Seq<char>>,
) -> bool {
    exists|r: (String, Option<String>)| #[trigger]
        answers(rule, s, r) && r.deep_view() == (id, version)
}

/// Whether `rule` may split the text `s` into the mod id `id` and some version or none.
pub open spec fn is_id_of<F: Fn(&str) -> (String, Option<String>)>(
    rule: F,
    s: Seq<char>,
    id: Seq<char>,
) -> bool {
    exists|version: Option<Seq<char>>| #[trigger] splits(rule, s, id, version)
}

/// Whether `rule` may split the names of the map, in their order, into the mod ids `ids` and
/// versions.
pub open spec fn ids_may_be<V, F: Fn(&str) -> (String, Option<String>)>(
    rule: F,
    map: Map<Seq<char>, V>,
    ids: Seq<Seq<char>>,
) -> bool {
    &&& ids.len() == in_order(map.dom()).len()
    &&& forall|i: int|
        0 <= i < ids.len() ==> is_id_of(rule, in_order(map.dom())[i], #[trigger] ids[i])
}

/// A version and where it can be downloaded, or why there is none.
pub type Pick = Result<(String, String), String>;

/// What a pick says.
pub type PickModel = Result<(Seq<char>, Seq<char>), Seq<char>>;

/// The characters of a pick.
pub open spec fn pick_view(pick: Pick) -> PickModel {
    match pick {
        Ok((version, url)) => Ok((version@, url@)),
        Err(reason) => Err(reason@),
    }
}

/// Whether `rule` can be asked to pick a release for any package.
pub open spec fn pickable<R, F: Fn(&R, &Package, &str, bool) -> Pick>(rule: F) -> bool {
    forall|releases: &R, package: &Package, game: &str, unstable: bool| #[trigger]
        call_requires(rule, (releases, package, game, unstable))
}

/// Whether `rule` may answer `pick` when asked for the release of `package` that suits the game
/// version `game`.
pub open spec fn picks<R, F: Fn(&R, &Package, &str, bool) -> Pick>(
    rule: F,
    releases: R,
    package: PackageModel,
    game: Seq<char>,
    unstable: bool,
    pick: PickModel,
) -> bool {
    exists|p: &Package, g: &str, r: Pick|
        p.deep_view() == package && g@ == game && pick_view(r) == pick && #[trigger] call_ensures(
            rule,
            (&releases, p, g, unstable),
            r,
        )
}

/// Whether `rule` picks as a function does.
pub open spec fn picks_once<R, F: Fn(&R, &Package, &str, bool) -> Pick>(rule: F) -> bool {
    forall|
        releases: R,
        package: PackageModel,
        game: Seq<char>,
        unstable: bool,
        a: PickModel,
        b: PickModel,
    | #[trigger]
        picks(rule, releases, package, game, unstable, a) && #[trigger] picks(
            rule,
            releases,
            package,
            game,
            unstable,
            b,
        ) ==> a == b
}

} // verus!
