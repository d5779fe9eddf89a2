//! What holds of every walk along the dependencies.

use crate::answers::{ids_may_be, is_id_of, Pick};
use crate::dependencies::{RequesterModel, VersionRules};
use crate::dependency_laws::{
    is_release_of, law_dependency_release_is_picked, law_pin_decides_the_release,
    lemma_pinned_answer,
};
use crate::install_manager::{ApiModModel, InstallModel};
use crate::keyed::{in_order, lemma_finite_in_order, values_in_order};
use crate::messages::NoticeModel;
use crate::package::{pin_ignoring_case, Package, PackageModel};
use crate::questions::{
    answered, called, gives_id, known_as, law_answer_comes_of_a_call, law_first_package_pins,
    law_id_is_given, law_pin_is_that_of_the_first_package, pinned_to,
};
use crate::resolve_installs::lookup;
use crate::sync::SyncModel;
use crate::text::{joined, lowercase, same_ignoring_ascii_case, trimmed};
use crate::walk::{
    after_dependencies, after_dependency, all_settle, asking, demands, demands_of, first_of_each,
    grouped, installs_mod, lemma_requested_keys, missing_row, requested_graph, said, settles,
    started, with_installed, DemandModel, ResolvedDepModel, Setting, WalkModel,
};
use vstd::prelude::*;

verus! {

/// Whether every mod that is to be downloaded is in the graph, and none is to be downloaded twice.
pub open spec fn queue_sound(walk: WalkModel) -> bool {
    &&& forall|i: int|
        0 <= i < walk.queue.len() ==> walk.graph.contains_key(
            lowercase(#[trigger] walk.queue[i].mod_id),
        )
    &&& forall|i: int, j: int|
        0 <= i < j < walk.queue.len() ==> lowercase(#[trigger] walk.queue[i].mod_id) != lowercase(
            #[trigger] walk.queue[j].mod_id,
        )
}

/// A mod that the user asked for keeps its place in the graph: what is installed never takes the
/// place of the version that is being installed.
pub proof fn law_requested_not_clobbered(
    graph: Map<Seq<char>, ResolvedDepModel>,
    ids: Seq<Seq<char>>,
    infos: Seq<SyncModel>,
    key: Seq<char>,
)
    requires
        graph.contains_key(key),
    ensures
        with_installed(graph, ids, infos).contains_key(key),
        with_installed(graph, ids, infos)[key] == graph[key],
    decreases ids.len(),
{
    if ids.len() > 0 {
        law_requested_not_clobbered(graph, ids.drop_last(), infos.drop_last(), key);
    }
}

/// Every installed mod is seen by the walk, so that none is fetched again as a dependency.
pub proof fn law_installed_are_seen(
    graph: Map<Seq<char>, ResolvedDepModel>,
    ids: Seq<Seq<char>>,
    infos: Seq<SyncModel>,
    i: int,
)
    requires
        0 <= i < ids.len(),
    ensures
        with_installed(graph, ids, infos).contains_key(lowercase(ids[i])),
    decreases ids.len(),
{
    if i < ids.len() - 1 {
        law_installed_are_seen(graph, ids.drop_last(), infos.drop_last(), i);
    }
}

proof fn lemma_first_of_each(installs: Seq<InstallModel>)
    ensures
        forall|i: int, j: int|
            0 <= i < j < first_of_each(installs).len() ==> lowercase(
                #[trigger] first_of_each(installs)[i].mod_id,
            ) != lowercase(#[trigger] first_of_each(installs)[j].mod_id),
        forall|i: int|
            0 <= i < installs.len() ==> installs_mod(
                first_of_each(installs),
                lowercase(#[trigger] installs[i].mod_id),
            ),
    decreases installs.len(),
{
    if installs.len() > 0 {
        let rest = installs.drop_last();
        lemma_first_of_each(rest);
        let before = first_of_each(rest);
        let after = first_of_each(installs);
        let key = lowercase(installs.last().mod_id);
        assert forall|i: int, j: int| 0 <= i < j < after.len() implies lowercase(
            #[trigger] after[i].mod_id,
        ) != lowercase(#[trigger] after[j].mod_id) by {
            assert(after[i] == before[i]);
            if j < before.len() {
                assert(after[j] == before[j]);
            } else {
                assert(lowercase(before[i].mod_id) != key);
            }
        }
        assert forall|i: int| 0 <= i < installs.len() implies installs_mod(
            after,
            lowercase(#[trigger] installs[i].mod_id),
        ) by {
            let wanted = lowercase(installs[i].mod_id);
            if i < rest.len() {
                assert(installs_mod(before, lowercase(rest[i].mod_id)));
            }
            if installs_mod(before, wanted) {
                let k = choose|k: int|
                    0 <= k < before.len() && lowercase(#[trigger] before[k].mod_id) == wanted;
                assert(lowercase(after[k].mod_id) == wanted);
            } else {
                assert(lowercase(after[before.len() as int].mod_id) == wanted);
            }
        }
    }
}

/// What was asked for is downloaded no matter what: every mod that the user asked for is in the
/// queue at the start, once.
pub proof fn law_requested_are_queued_once(installs: Seq<InstallModel>, ignore_dependencies: bool)
    ensures
        queue_sound(started(installs, ignore_dependencies)),
        forall|i: int|
            0 <= i < installs.len() ==> installs_mod(
                started(installs, ignore_dependencies).queue,
                lowercase(#[trigger] installs[i].mod_id),
            ),
{
    lemma_first_of_each(installs);
    let walk = started(installs, ignore_dependencies);
    lemma_requested_keys(walk.queue);
    assert forall|i: int| 0 <= i < walk.queue.len() implies walk.graph.contains_key(
        lowercase(#[trigger] walk.queue[i].mod_id),
    ) by {
        assert(installs_mod(walk.queue, lowercase(walk.queue[i].mod_id)));
    }
}

/// Taking dependencies in leaves the graph and the queue as they were, but for what is added, and
/// never queues a mod that the walk has seen: no mod is downloaded twice.
pub proof fn law_no_mod_queued_twice<R>(
    walk: WalkModel,
    ids: Seq<Seq<char>>,
    requesters: Map<Seq<char>, Seq<RequesterModel>>,
    found: Map<Seq<char>, ApiModModel<R>>,
    releases: Seq<Option<(Seq<char>, Seq<char>)>>,
)
    ensures
        ({
            let after = after_dependencies(walk, ids, requesters, found, releases);
            &&& walk.graph.submap_of(after.graph)
            &&& walk.queue.is_prefix_of(after.queue)
            &&& queue_sound(walk) ==> queue_sound(after)
            &&& forall|i: int|
                walk.queue.len() <= i < after.queue.len() ==> !walk.graph.contains_key(
                    lowercase(#[trigger] after.queue[i].mod_id),
                )
        }),
    decreases ids.len(),
{
    if ids.len() > 0 {
        let rest = ids.drop_last();
        let rest_releases = releases.drop_last();
        law_no_mod_queued_twice(walk, rest, requesters, found, rest_releases);
        let before = after_dependencies(walk, rest, requesters, found, rest_releases);
        let after = after_dependencies(walk, ids, requesters, found, releases);
        vstd::map_lib::lemma_submap_of_trans(walk.graph, before.graph, after.graph);
        assert forall|i: int| 0 <= i < walk.queue.len() implies walk.queue[i] == after.queue[i] by {
            assert(before.queue[i] == walk.queue[i]);
        }
        assert forall|i: int| walk.queue.len() <= i < after.queue.len() implies !walk.graph.contains_key(
            lowercase(#[trigger] after.queue[i].mod_id),
        ) by {
            if i < before.queue.len() {
                assert(after.queue[i] == before.queue[i]);
            }
        }
        if queue_sound(walk) {
            assert forall|i: int| 0 <= i < after.queue.len() implies after.graph.contains_key(
                lowercase(#[trigger] after.queue[i].mod_id),
            ) by {
                if i < before.queue.len() {
                    assert(after.queue[i] == before.queue[i]);
                }
            }
            assert forall|i: int, j: int| 0 <= i < j < after.queue.len() implies lowercase(
                #[trigger] after.queue[i].mod_id,
            ) != lowercase(#[trigger] after.queue[j].mod_id) by {
                assert(after.queue[i] == before.queue[i]);
                if j < before.queue.len() {
                    assert(after.queue[j] == before.queue[j]);
                } else {
                    assert(before.graph.contains_key(lowercase(before.queue[i].mod_id)));
                }
            }
        }
    }
}

/// No mod is downloaded twice in a run: once a batch was taken out of the queue and what it depends
/// on was taken in, the next batch holds no mod of that batch nor of any before it. The mods of all
/// batches so far stay in the graph, so that this goes on to hold of the batches that follow.
pub proof fn law_no_mod_in_two_batches<R>(
    walk: WalkModel,
    earlier: Set<Seq<char>>,
    ids: Seq<Seq<char>>,
    requesters: Map<Seq<char>, Seq<RequesterModel>>,
    found: Map<Seq<char>, ApiModModel<R>>,
    releases: Seq<Option<(Seq<char>, Seq<char>)>>,
)
    requires
        queue_sound(walk),
        earlier.subset_of(walk.graph.dom()),
    ensures
        ({
            let emptied = WalkModel { queue: Seq::empty(), ..walk };
            let next = after_dependencies(emptied, ids, requesters, found, releases);
            &&& queue_sound(next)
            &&& forall|key: Seq<char>|
                earlier.contains(key) || installs_mod(walk.queue, key) ==> #[trigger]
                    next.graph.contains_key(key) && !installs_mod(next.queue, key)
        }),
{
    let emptied = WalkModel { queue: Seq::empty(), ..walk };
    let next = after_dependencies(emptied, ids, requesters, found, releases);
    law_no_mod_queued_twice(emptied, ids, requesters, found, releases);
    assert forall|key: Seq<char>|
        earlier.contains(key) || installs_mod(walk.queue, key) implies #[trigger]
            next.graph.contains_key(key) && !installs_mod(next.queue, key) by {
        if installs_mod(walk.queue, key) {
            let i = choose|i: int|
                0 <= i < walk.queue.len() && lowercase(#[trigger] walk.queue[i].mod_id) == key;
            assert(walk.graph.contains_key(lowercase(walk.queue[i].mod_id)));
        }
        assert(emptied.graph.dom().contains(key));
        if installs_mod(next.queue, key) {
            let i = choose|i: int|
                0 <= i < next.queue.len() && lowercase(#[trigger] next.queue[i].mod_id) == key;
            assert(!emptied.graph.contains_key(lowercase(next.queue[i].mod_id)));
        }
    }
}

/// The walk comes to its end: as long as there is something left to download after a batch was
/// taken out of the queue and its dependencies were taken in, the graph has a mod that it lacked
/// before, and it never loses one.
pub proof fn law_walk_makes_progress<R>(
    walk: WalkModel,
    ids: Seq<Seq<char>>,
    requesters: Map<Seq<char>, Seq<RequesterModel>>,
    found: Map<Seq<char>, ApiModModel<R>>,
    releases: Seq<Option<(Seq<char>, Seq<char>)>>,
)
    requires
        queue_sound(walk),
    ensures
        ({
            let emptied = WalkModel { queue: Seq::empty(), ..walk };
            let next = after_dependencies(emptied, ids, requesters, found, releases);
            &&& queue_sound(next)
            &&& walk.graph.submap_of(next.graph)
            &&& next.queue.len() > 0 ==> exists|key: Seq<char>| #[trigger]
                next.graph.contains_key(key) && !walk.graph.contains_key(key)
            &&& next.queue.len() > 0 && next.graph.dom().finite() ==> walk.graph.dom().len()
                < next.graph.dom().len()
        }),
{
    let emptied = WalkModel { queue: Seq::empty(), ..walk };
    let next = after_dependencies(emptied, ids, requesters, found, releases);
    law_no_mod_queued_twice(emptied, ids, requesters, found, releases);
    if next.queue.len() > 0 {
        let key = lowercase(next.queue[0].mod_id);
        assert(next.graph.contains_key(key) && !walk.graph.contains_key(key));
        if next.graph.dom().finite() {
            let rest = next.graph.dom().remove(key);
            assert(walk.graph.dom().subset_of(rest));
            vstd::set_lib::lemma_len_subset(walk.graph.dom(), rest);
        }
    }
}

/// Every mod that asks for a dependency which the walk has not seen gets a say in its version.
pub proof fn law_no_demand_lost(demands: Seq<DemandModel>, seen: Set<Seq<char>>, i: int)
    requires
        0 <= i < demands.len(),
        !seen.contains(lowercase(demands[i].dep_id)),
    ensures
        grouped(demands, seen).contains_key(lowercase(demands[i].dep_id)),
        grouped(demands, seen)[lowercase(demands[i].dep_id)].contains(demands[i].requester),
    decreases demands.len(),
{
    let key = lowercase(demands[i].dep_id);
    let all = asking(demands, key);
    let before = asking(demands.drop_last(), key);
    if i < demands.len() - 1 {
        law_no_demand_lost(demands.drop_last(), seen, i);
        assert(grouped(demands.drop_last(), seen)[key] == before);
        let k = choose|k: int| 0 <= k < before.len() && before[k] == demands[i].requester;
        assert(all[k] == demands[i].requester);
    } else {
        assert(all[before.len() as int] == demands[i].requester);
    }
}

proof fn lemma_said(notices: Seq<Option<NoticeModel>>, i: int)
    requires
        0 <= i < notices.len(),
        notices[i] is Some,
    ensures
        said(notices).contains(notices[i]->0),
    decreases notices.len(),
{
    let before = said(notices.drop_last());
    if i < notices.len() - 1 {
        lemma_said(notices.drop_last(), i);
        let k = choose|k: int| 0 <= k < before.len() && before[k] == notices[i]->0;
        assert(said(notices)[k] == notices[i]->0);
    } else {
        assert(said(notices)[before.len() as int] == notices[i]->0);
    }
}

/// What there is to say comes in the order of the dependencies: what is said about more of them
/// comes behind, and of one of them just its notice is said, if there is one.
pub proof fn law_notices_keep_their_order(
    a: Seq<Option<NoticeModel>>,
    b: Seq<Option<NoticeModel>>,
)
    ensures
        said(a + b) == said(a) + said(b),
        a.len() == 1 && a[0] is Some ==> said(a) == seq![a[0]->0],
        a.len() == 1 && a[0] is None ==> said(a).len() == 0,
    decreases b.len(),
{
    if a.len() == 1 {
        assert(said(a.drop_last()) =~= Seq::empty());
        assert(a[0] is Some ==> said(a) =~= seq![a[0]->0]);
    }
    if b.len() == 0 {
        assert(a + b =~= a);
        assert(said(a) + said(b) =~= said(a));
    } else {
        law_notices_keep_their_order(a, b.drop_last());
        assert((a + b).drop_last() =~= a + b.drop_last());
        assert(said(a + b) =~= said(a) + said(b));
    }
}

proof fn lemma_kept_after<R>(
    walk: WalkModel,
    ids: Seq<Seq<char>>,
    requesters: Map<Seq<char>, Seq<RequesterModel>>,
    found: Map<Seq<char>, ApiModModel<R>>,
    releases: Seq<Option<(Seq<char>, Seq<char>)>>,
    i: int,
)
    requires
        0 <= i <= ids.len(),
        ids.len() == releases.len(),
    ensures
        ({
            let early = after_dependencies(walk, ids.take(i), requesters, found, releases.take(i));
            let late = after_dependencies(walk, ids, requesters, found, releases);
            &&& early.graph.submap_of(late.graph)
            &&& early.unresolved.is_prefix_of(late.unresolved)
        }),
    decreases ids.len() - i,
{
    if i == ids.len() {
        assert(ids.take(i) =~= ids);
        assert(releases.take(i) =~= releases);
    } else {
        lemma_kept_after(walk, ids, requesters, found, releases, i + 1);
        assert(ids.take(i + 1).drop_last() =~= ids.take(i));
        assert(releases.take(i + 1).drop_last() =~= releases.take(i));
        let early = after_dependencies(walk, ids.take(i), requesters, found, releases.take(i));
        let next = after_dependencies(
            walk,
            ids.take(i + 1),
            requesters,
            found,
            releases.take(i + 1),
        );
        let late = after_dependencies(walk, ids, requesters, found, releases);
        vstd::map_lib::lemma_submap_of_trans(early.graph, next.graph, late.graph);
        assert(early.unresolved.is_prefix_of(next.unresolved));
        assert forall|k: int| 0 <= k < early.unresolved.len() implies early.unresolved[k]
            == late.unresolved[k] by {
            assert(next.unresolved[k] == early.unresolved[k]);
        }
    }
}

/// No dependency drops out without a word: once the new dependencies are taken in, each of them is
/// in the graph, or listed as unresolved, or the user is told about it.
pub proof fn law_no_dependency_dropped_silently<K: Ord, R, O, N, V, C, P>(
    rules: VersionRules<O, N, V, C, P>,
    setting: Setting,
    walk: WalkModel,
    ids: Seq<Seq<char>>,
    requesters: Map<Seq<char>, Seq<RequesterModel>>,
    found: Map<Seq<char>, ApiModModel<R>>,
    releases: Seq<Option<(Seq<char>, Seq<char>)>>,
    notices: Seq<Option<NoticeModel>>,
    i: int,
) where
    O: Fn(&str) -> bool,
    N: Fn(&str) -> Option<(u64, u64, u64)>,
    V: Fn(&str) -> Option<K>,
    C: Fn(&str, &str) -> String,
    P: Fn(&R, &Package, &str, bool) -> Pick,

    requires
        all_settle::<K, R, O, N, V, C, P>(
            rules,
            setting,
            walk,
            ids,
            requesters,
            found,
            releases,
            notices,
        ),
        0 <= i < ids.len(),
    ensures
        ({
            let after = after_dependencies(walk, ids, requesters, found, releases);
            ||| after.graph.contains_key(lowercase(ids[i]))
            ||| after.unresolved.contains(missing_row(ids[i], requesters[ids[i]]))
            ||| notices[i] is Some && said(notices).contains(notices[i]->0)
        }),
{
    let id = ids[i];
    let early = after_dependencies(walk, ids.take(i), requesters, found, releases.take(i));
    let next = after_dependencies(walk, ids.take(i + 1), requesters, found, releases.take(i + 1));
    let late = after_dependencies(walk, ids, requesters, found, releases);
    assert(settles::<K, R, O, N, V, C, P>(
        rules,
        setting,
        early,
        id,
        requesters[id],
        lookup(found, id),
        releases[i],
        notices[i],
    ));
    assert(ids.take(i + 1).drop_last() =~= ids.take(i));
    assert(releases.take(i + 1).drop_last() =~= releases.take(i));
    assert(next == after_dependency(
        early,
        id,
        requesters[id],
        lookup(found, id),
        releases[i],
    ));
    lemma_kept_after(walk, ids, requesters, found, releases, i + 1);
    if notices[i] is Some {
        lemma_said(notices, i);
    } else if !early.graph.contains_key(lowercase(id)) {
        if lookup(found, id) is None {
            let k = early.unresolved.len() as int;
            assert(next.unresolved[k] == missing_row(id, requesters[id]));
            assert(late.unresolved[k] == next.unresolved[k]);
        } else {
            assert(releases[i] is Some);
            assert(next.graph.contains_key(lowercase(id)));
        }
    }
}

/// Whether an install is of a new dependency that the site has, with the name that the site gives it
/// and a release of it that the rule picks under what its requesters demand and what the user's
/// packages pin, and whether the graph says the same of it.
pub open spec fn is_taken_in<K: Ord, R, O, N, V, C, P>(
    rules: VersionRules<O, N, V, C, P>,
    requesters: Map<Seq<char>, Seq<RequesterModel>>,
    found: Map<Seq<char>, ApiModModel<R>>,
    packages: Seq<PackageModel>,
    game: Seq<char>,
    unstable: bool,
    graph: Map<Seq<char>, ResolvedDepModel>,
    install: InstallModel,
) -> bool where
    O: Fn(&str) -> bool,
    N: Fn(&str) -> Option<(u64, u64, u64)>,
    V: Fn(&str) -> Option<K>,
    C: Fn(&str, &str) -> String,
    P: Fn(&R, &Package, &str, bool) -> Pick,
 {
    let dep = graph[lowercase(install.mod_id)];
    &&& requesters.contains_key(install.mod_id)
    &&& found.contains_key(install.mod_id)
    &&& called(found[install.mod_id], install.mod_name)
    &&& install.current_file_path is None
    &&& is_release_of::<K, R, O, N, V, C, P>(
        rules,
        requesters[install.mod_id],
        found[install.mod_id],
        packages,
        game,
        unstable,
        install.version_to_install,
        install.download_url,
    )
    &&& graph.contains_key(lowercase(install.mod_id))
    &&& dep.mod_id == install.mod_id
    &&& dep.mod_name == install.mod_name
    &&& dep.version_to_install == install.version_to_install
    &&& dep.download_url == install.download_url
    &&& dep.requesters == requesters[install.mod_id]
}

/// Whether a row says of a new dependency that the site does not have it, and who needs it.
pub open spec fn tells_missing<R>(
    requesters: Map<Seq<char>, Seq<RequesterModel>>,
    found: Map<Seq<char>, ApiModModel<R>>,
    row: Seq<char>,
) -> bool {
    exists|id: Seq<char>| #[trigger]
        requesters.contains_key(id) && !found.contains_key(id) && row == id
            + "\nNot found on the mod site. Needed by: "@ + joined(
            requesters[id].map_values(|r: RequesterModel| r.mod_id),
            ", "@,
        )
}

/// What is added to the queue are new dependencies that the site has, each with a release that the
/// rule picks under what its requesters demand and what the user's packages pin. What the site does
/// not have is told. The graph gets just what is queued.
pub proof fn law_queued_dependencies_are_picked<K: Ord, R, O, N, V, C, P>(
    rules: VersionRules<O, N, V, C, P>,
    setting: Setting,
    walk: WalkModel,
    ids: Seq<Seq<char>>,
    requesters: Map<Seq<char>, Seq<RequesterModel>>,
    found: Map<Seq<char>, ApiModModel<R>>,
    releases: Seq<Option<(Seq<char>, Seq<char>)>>,
    notices: Seq<Option<NoticeModel>>,
) where
    O: Fn(&str) -> bool,
    N: Fn(&str) -> Option<(u64, u64, u64)>,
    V: Fn(&str) -> Option<K>,
    C: Fn(&str, &str) -> String,
    P: Fn(&R, &Package, &str, bool) -> Pick,

    requires
        all_settle::<K, R, O, N, V, C, P>(
            rules,
            setting,
            walk,
            ids,
            requesters,
            found,
            releases,
            notices,
        ),
        forall|i: int| 0 <= i < ids.len() ==> requesters.contains_key(#[trigger] ids[i]),
    ensures
        ({
            let after = after_dependencies(walk, ids, requesters, found, releases);
            &&& walk.queue.len() <= after.queue.len()
            &&& forall|k: int|
                walk.queue.len() <= k < after.queue.len() ==> is_taken_in::<K, R, O, N, V, C, P>(
                    rules,
                    requesters,
                    found,
                    setting.packages.deep_view(),
                    setting.pinned_game_version@,
                    setting.allow_unstable,
                    after.graph,
                    #[trigger] after.queue[k],
                )
            &&& forall|key: Seq<char>| #[trigger]
                after.graph.contains_key(key) && !walk.graph.contains_key(key) ==> installs_mod(
                    after.queue,
                    key,
                )
            &&& walk.unresolved.len() <= after.unresolved.len()
            &&& forall|k: int|
                walk.unresolved.len() <= k < after.unresolved.len() ==> tells_missing(
                    requesters,
                    found,
                    #[trigger] after.unresolved[k],
                )
            &&& after.installed == walk.installed
            &&& after.ignore_dependencies == walk.ignore_dependencies
        }),
    decreases ids.len(),
{
    if ids.len() > 0 {
        let n = ids.len() - 1;
        let id = ids[n];
        let rest = ids.drop_last();
        let rest_releases = releases.drop_last();
        let rest_notices = notices.drop_last();
        assert forall|i: int| 0 <= i < rest.len() implies settles::<K, R, O, N, V, C, P>(
            rules,
            setting,
            after_dependencies(walk, rest.take(i), requesters, found, rest_releases.take(i)),
            #[trigger] rest[i],
            requesters[rest[i]],
            lookup(found, rest[i]),
            rest_releases[i],
            rest_notices[i],
        ) by {
            assert(rest[i] == ids[i]);
            assert(rest.take(i) =~= ids.take(i));
            assert(rest_releases.take(i) =~= releases.take(i));
        }
        assert forall|i: int| 0 <= i < rest.len() implies requesters.contains_key(
            #[trigger] rest[i],
        ) by {
            assert(rest[i] == ids[i]);
        }
        law_queued_dependencies_are_picked::<K, R, O, N, V, C, P>(
            rules,
            setting,
            walk,
            rest,
            requesters,
            found,
            rest_releases,
            rest_notices,
        );
        assert(ids.take(n) =~= rest);
        assert(releases.take(n) =~= rest_releases);
        let before = after_dependencies(walk, rest, requesters, found, rest_releases);
        let after = after_dependencies(walk, ids, requesters, found, releases);
        assert(settles::<K, R, O, N, V, C, P>(
            rules,
            setting,
            before,
            id,
            requesters[id],
            lookup(found, id),
            releases[n],
            notices[n],
        ));
        assert(requesters.contains_key(id));
        let packages = setting.packages.deep_view();
        if !before.graph.contains_key(lowercase(id)) && found.contains_key(id) && releases[n] is Some {
            let api_mod = found[id];
            law_pin_is_that_of_the_first_package(
                packages,
                api_mod.known_id(),
                pin_ignoring_case(packages, api_mod.known_id()),
            );
            law_dependency_release_is_picked::<K, R, O, N, V, C, P>(
                rules,
                id,
                requesters[id],
                api_mod,
                packages,
                setting.pinned_game_version@,
                setting.allow_unstable,
                releases[n],
                notices[n],
                api_mod.known_id(),
                pin_ignoring_case(packages, api_mod.known_id()),
            );
        }
        assert forall|k: int|
            walk.queue.len() <= k < after.queue.len() implies is_taken_in::<K, R, O, N, V, C, P>(
            rules,
            requesters,
            found,
            packages,
            setting.pinned_game_version@,
            setting.allow_unstable,
            after.graph,
            #[trigger] after.queue[k],
        ) by {
            if k < before.queue.len() {
                assert(after.queue[k] == before.queue[k]);
                assert(before.graph.contains_key(lowercase(before.queue[k].mod_id)));
            }
        }
        assert forall|key: Seq<char>| #[trigger]
            after.graph.contains_key(key) && !walk.graph.contains_key(key) implies installs_mod(
            after.queue,
            key,
        ) by {
            if before.graph.contains_key(key) {
                assert(installs_mod(before.queue, key));
                let k = choose|k: int|
                    0 <= k < before.queue.len() && lowercase(#[trigger] before.queue[k].mod_id)
                        == key;
                assert(lowercase(after.queue[k].mod_id) == key);
            } else {
                assert(lowercase(after.queue[before.queue.len() as int].mod_id) == key);
            }
        }
        assert forall|k: int|
            walk.unresolved.len() <= k < after.unresolved.len() implies tells_missing(
            requesters,
            found,
            #[trigger] after.unresolved[k],
        ) by {
            if k < before.unresolved.len() {
                assert(after.unresolved[k] == before.unresolved[k]);
            } else {
                assert(requesters.contains_key(id) && !found.contains_key(id));
            }
        }
    }
}

/// A mod that the user's packages pin is brought in at a release that answers the pin. Where no
/// requester asks for a version, the release is what a call of the rule answers that is asked about
/// the mod by its alias, or by its number where it has none, with just the pin of the first package
/// that has that id, for just this game version and this permission of unstable releases.
pub proof fn law_queued_release_answers_the_pin<K: Ord, R, O, N, V, C, P>(
    rules: VersionRules<O, N, V, C, P>,
    requesters: Map<Seq<char>, Seq<RequesterModel>>,
    found: Map<Seq<char>, ApiModModel<R>>,
    packages: Seq<PackageModel>,
    game: Seq<char>,
    unstable: bool,
    graph: Map<Seq<char>, ResolvedDepModel>,
    install: InstallModel,
    known_id: Seq<char>,
    k: int,
) where
    O: Fn(&str) -> bool,
    N: Fn(&str) -> Option<(u64, u64, u64)>,
    V: Fn(&str) -> Option<K>,
    C: Fn(&str, &str) -> String,
    P: Fn(&R, &Package, &str, bool) -> Pick,

    requires
        is_taken_in::<K, R, O, N, V, C, P>(
            rules,
            requesters,
            found,
            packages,
            game,
            unstable,
            graph,
            install,
        ),
        forall|i: int|
            0 <= i < requesters[install.mod_id].len() ==> trimmed(
                (#[trigger] requesters[install.mod_id][i]).required_version,
            ).len() == 0 || trimmed(requesters[install.mod_id][i].required_version) == "*"@,
        known_id == (match found[install.mod_id].url_alias {
            Some(alias) => alias,
            None => found[install.mod_id].mod_id,
        }),
        0 <= k < packages.len(),
        same_ignoring_ascii_case(packages[k].mod_id, known_id),
        forall|j: int|
            0 <= j < k ==> !same_ignoring_ascii_case((#[trigger] packages[j]).mod_id, known_id),
    ensures
        exists|package: &Package, version: &str, answer: Pick|
            {
                &&& #[trigger] call_ensures(
                    rules.parse_pinned_version,
                    (&found[install.mod_id].releases, package, version, unstable),
                    answer,
                )
                &&& package.mod_id@ == known_id
                &&& package.pinned_version.deep_view() == packages[k].pinned_version
                &&& version@ == game
                &&& answer is Ok
                &&& answer->Ok_0.0@ == install.version_to_install
                &&& answer->Ok_0.1@ == install.download_url
            },
{
    let api_mod = found[install.mod_id];
    let pin = packages[k].pinned_version;
    law_first_package_pins(packages, known_id, k);
    let answer = lemma_pinned_answer::<K, R, O, N, V, C, P>(
        rules,
        requesters[install.mod_id],
        api_mod,
        packages,
        game,
        unstable,
        install.version_to_install,
        install.download_url,
        known_id,
        pin,
    );
    law_answer_comes_of_a_call(
        rules.parse_pinned_version,
        api_mod.releases,
        known_id,
        pin,
        game,
        unstable,
        answer,
    );
    let (package, version) = choose|package: &Package, version: &str|
        {
            &&& #[trigger] call_ensures(
                rules.parse_pinned_version,
                (&api_mod.releases, package, version, unstable),
                answer,
            )
            &&& package.mod_id@ == known_id
            &&& package.pinned_version is Some <==> pin is Some
            &&& pin is Some ==> package.pinned_version->0@ == pin->0
            &&& version@ == game
        };
    assert(package.pinned_version.deep_view() == pin);
}

/// The user's pins decide. Where no requester asks for a version, two settings that pin a mod
/// differently bring in the releases that the rule answers to just these pins.
pub proof fn law_different_pins_give_their_picks<K: Ord, R, O, N, V, C, P>(
    rules: VersionRules<O, N, V, C, P>,
    requesters: Map<Seq<char>, Seq<RequesterModel>>,
    found: Map<Seq<char>, ApiModModel<R>>,
    game: Seq<char>,
    unstable: bool,
    known_id: Seq<char>,
    a: (Seq<PackageModel>, Map<Seq<char>, ResolvedDepModel>, InstallModel, Option<Seq<char>>),
    b: (Seq<PackageModel>, Map<Seq<char>, ResolvedDepModel>, InstallModel, Option<Seq<char>>),
    f: spec_fn(Option<Seq<char>>) -> (Seq<char>, Seq<char>),
) where
    O: Fn(&str) -> bool,
    N: Fn(&str) -> Option<(u64, u64, u64)>,
    V: Fn(&str) -> Option<K>,
    C: Fn(&str, &str) -> String,
    P: Fn(&R, &Package, &str, bool) -> Pick,

    requires
        is_taken_in::<K, R, O, N, V, C, P>(
            rules,
            requesters,
            found,
            a.0,
            game,
            unstable,
            a.1,
            a.2,
        ),
        is_taken_in::<K, R, O, N, V, C, P>(
            rules,
            requesters,
            found,
            b.0,
            game,
            unstable,
            b.1,
            b.2,
        ),
        a.2.mod_id == b.2.mod_id,
        known_as(found[a.2.mod_id], known_id),
        pinned_to(a.0, known_id, a.3),
        pinned_to(b.0, known_id, b.3),
        forall|i: int|
            0 <= i < requesters[a.2.mod_id].len() ==> trimmed(
                (#[trigger] requesters[a.2.mod_id][i]).required_version,
            ).len() == 0 || trimmed(requesters[a.2.mod_id][i].required_version) == "*"@,
        forall|pin: Option<Seq<char>>, answer: Pick| #[trigger]
            answered(
                rules.parse_pinned_version,
                found[a.2.mod_id].releases,
                known_id,
                pin,
                game,
                unstable,
                answer,
            ) && answer is Ok ==> (answer->Ok_0.0@, answer->Ok_0.1@) == f(pin),
    ensures
        (a.2.version_to_install, a.2.download_url) == f(a.3),
        (b.2.version_to_install, b.2.download_url) == f(b.3),
{
    let id = a.2.mod_id;
    law_pin_decides_the_release::<K, R, O, N, V, C, P>(
        rules,
        requesters[id],
        found[id],
        a.0,
        game,
        unstable,
        a.2.version_to_install,
        a.2.download_url,
        known_id,
        a.3,
        f(a.3).0,
        f(a.3).1,
    );
    law_pin_decides_the_release::<K, R, O, N, V, C, P>(
        rules,
        requesters[id],
        found[id],
        b.0,
        game,
        unstable,
        b.2.version_to_install,
        b.2.download_url,
        known_id,
        b.3,
        f(b.3).0,
        f(b.3).1,
    );
}

/// Whether the queue holds the installs at the positions `places`, in their order: the first one of
/// each mod.
pub open spec fn are_the_first(
    installs: Seq<InstallModel>,
    places: Seq<int>,
    queue: Seq<InstallModel>,
) -> bool {
    &&& places.len() == queue.len()
    &&& forall|k: int|
        0 <= k < places.len() ==> 0 <= #[trigger] places[k] < installs.len() && queue[k]
            == installs[places[k]]
    &&& forall|k: int, l: int|
        0 <= k < l < places.len() ==> #[trigger] places[k] < #[trigger] places[l]
    &&& forall|k: int, j: int|
        #![trigger places[k], installs[j]]
        0 <= k < places.len() && 0 <= j < places[k] ==> lowercase(installs[j].mod_id) != lowercase(
            queue[k].mod_id,
        )
    &&& forall|i: int|
        0 <= i < installs.len() ==> installs_mod(queue, lowercase((#[trigger] installs[i]).mod_id))
}

/// Whether the graph says of an install what it is, and that the user asked for it.
pub open spec fn asked_for_by_user(
    graph: Map<Seq<char>, ResolvedDepModel>,
    install: InstallModel,
) -> bool {
    let dep = graph[lowercase(install.mod_id)];
    &&& graph.contains_key(lowercase(install.mod_id))
    &&& dep.mod_id == install.mod_id
    &&& dep.mod_name == install.mod_name
    &&& dep.version_to_install == install.version_to_install
    &&& dep.download_url == install.download_url
    &&& dep.requesters.len() == 1
    &&& dep.requesters[0].mod_id == "user"@
    &&& dep.requesters[0].required_version == install.version_to_install
}

proof fn lemma_places(installs: Seq<InstallModel>) -> (places: Seq<int>)
    ensures
        are_the_first(installs, places, first_of_each(installs)),
    decreases installs.len(),
{
    let queue = first_of_each(installs);
    if installs.len() == 0 {
        assert(are_the_first(installs, Seq::empty(), queue));
        Seq::empty()
    } else {
        lemma_first_of_each(installs);
        let rest = installs.drop_last();
        let before = lemma_places(rest);
        let n = rest.len() as int;
        let old_queue = first_of_each(rest);
        let key = lowercase(installs.last().mod_id);
        let places = if installs_mod(old_queue, key) {
            before
        } else {
            before.push(n)
        };
        assert forall|k: int| 0 <= k < places.len() implies 0 <= #[trigger] places[k]
            < installs.len() && queue[k] == installs[places[k]] by {
            if k < before.len() {
                assert(places[k] == before[k]);
                assert(installs[before[k]] == rest[before[k]]);
            }
        }
        assert forall|k: int, l: int| 0 <= k < l < places.len() implies #[trigger] places[k]
            < #[trigger] places[l] by {
            assert(places[k] == before[k]);
            if l < before.len() {
                assert(places[l] == before[l]);
            }
        }
        assert forall|k: int, j: int|
            #![trigger places[k], installs[j]]
            0 <= k < places.len() && 0 <= j < places[k] implies lowercase(installs[j].mod_id)
            != lowercase(queue[k].mod_id) by {
            if k < before.len() {
                assert(places[k] == before[k]);
                assert(rest[j] == installs[j]);
            } else {
                assert(rest[j] == installs[j]);
                assert(installs_mod(old_queue, lowercase(rest[j].mod_id)));
            }
        }
        assert forall|i: int| 0 <= i < installs.len() implies installs_mod(
            queue,
            lowercase((#[trigger] installs[i]).mod_id),
        ) by {
            assert(installs_mod(queue, lowercase(installs[i].mod_id)));
        }
        places
    }
}

proof fn lemma_requested_entry(installs: Seq<InstallModel>, k: int)
    requires
        0 <= k < installs.len(),
        forall|i: int, j: int|
            0 <= i < j < installs.len() ==> lowercase(#[trigger] installs[i].mod_id) != lowercase(
                #[trigger] installs[j].mod_id,
            ),
    ensures
        asked_for_by_user(requested_graph(installs), installs[k]),
    decreases installs.len(),
{
    let rest = installs.drop_last();
    if k < rest.len() {
        assert forall|i: int, j: int| 0 <= i < j < rest.len() implies lowercase(
            #[trigger] rest[i].mod_id,
        ) != lowercase(#[trigger] rest[j].mod_id) by {
            assert(rest[i] == installs[i] && rest[j] == installs[j]);
        }
        lemma_requested_entry(rest, k);
        assert(lowercase(installs[k].mod_id) != lowercase(
            installs[installs.len() - 1].mod_id,
        ));
    }
}

/// A walk starts with the first of each mod that was asked for, in the order in which they were
/// asked for, just as they were asked for, and the graph says that the user asked for them.
pub proof fn law_walk_starts_with_the_first_of_each(
    installs: Seq<InstallModel>,
    ignore_dependencies: bool,
)
    ensures
        ({
            let walk = started(installs, ignore_dependencies);
            &&& exists|places: Seq<int>| #[trigger] are_the_first(installs, places, walk.queue)
            &&& forall|k: int|
                0 <= k < walk.queue.len() ==> asked_for_by_user(
                    walk.graph,
                    #[trigger] walk.queue[k],
                )
            &&& forall|key: Seq<char>| #[trigger]
                walk.graph.contains_key(key) <==> installs_mod(walk.queue, key)
            &&& walk.installed.len() == 0
            &&& walk.unresolved.len() == 0
            &&& walk.ignore_dependencies == ignore_dependencies
        }),
{
    let walk = started(installs, ignore_dependencies);
    lemma_first_of_each(installs);
    lemma_requested_keys(walk.queue);
    let places = lemma_places(installs);
    assert(are_the_first(installs, places, walk.queue));
    assert forall|k: int| 0 <= k < walk.queue.len() implies asked_for_by_user(
        walk.graph,
        #[trigger] walk.queue[k],
    ) by {
        lemma_requested_entry(walk.queue, k);
    }
}

/// Whether the graph says of a mod under `key` what the sync information of an installed mod with
/// that id says, the first one in the order of `ids`, and that it is installed.
pub open spec fn known_as_installed(
    ids: Seq<Seq<char>>,
    infos: Seq<SyncModel>,
    key: Seq<char>,
    dep: ResolvedDepModel,
    i: int,
) -> bool {
    &&& 0 <= i < ids.len()
    &&& lowercase(ids[i]) == key
    &&& forall|j: int| 0 <= j < i ==> lowercase(#[trigger] ids[j]) != key
    &&& dep.mod_id == ids[i]
    &&& dep.mod_name == infos[i].mod_name
    &&& dep.version_to_install == infos[i].installed_version
    &&& dep.download_url.len() == 0
    &&& dep.requesters.len() == 1
    &&& dep.requesters[0].mod_id == "installed"@
    &&& dep.requesters[0].required_version == infos[i].installed_version
}

/// What the graph gets of the installed mods: under every id in lowercase that it had nothing for,
/// what the first installed mod with that id is. It gets nothing else.
pub proof fn law_installed_mods_are_noted(
    graph: Map<Seq<char>, ResolvedDepModel>,
    ids: Seq<Seq<char>>,
    infos: Seq<SyncModel>,
    key: Seq<char>,
)
    requires
        ids.len() == infos.len(),
        !graph.contains_key(key),
    ensures
        with_installed(graph, ids, infos).contains_key(key) <==> exists|i: int|
            0 <= i < ids.len() && lowercase(#[trigger] ids[i]) == key,
        with_installed(graph, ids, infos).contains_key(key) ==> exists|i: int| #[trigger]
            known_as_installed(ids, infos, key, with_installed(graph, ids, infos)[key], i),
    decreases ids.len(),
{
    if ids.len() > 0 {
        let rest = ids.drop_last();
        let rest_infos = infos.drop_last();
        law_installed_mods_are_noted(graph, rest, rest_infos, key);
        let before = with_installed(graph, rest, rest_infos);
        let after = with_installed(graph, ids, infos);
        let n = ids.len() - 1;
        if before.contains_key(key) {
            let i = choose|i: int| #[trigger]
                known_as_installed(rest, rest_infos, key, before[key], i);
            assert(rest[i] == ids[i]);
            assert forall|j: int| 0 <= j < i implies lowercase(#[trigger] ids[j]) != key by {
                assert(rest[j] == ids[j]);
            }
            assert(known_as_installed(ids, infos, key, after[key], i));
        } else {
            assert forall|j: int| 0 <= j < n implies lowercase(#[trigger] ids[j]) != key by {
                assert(rest[j] == ids[j]);
            }
            if lowercase(ids[n]) == key {
                assert(known_as_installed(ids, infos, key, after[key], n));
            }
        }
    }
}

/// Whether the graph says of a mod what the sync information of an installed mod says whose name the
/// rule splits into an id with that key, and that it is installed.
pub open spec fn comes_of_installed<S: Fn(&str) -> (String, Option<String>)>(
    rule: S,
    installed: Map<Seq<char>, SyncModel>,
    key: Seq<char>,
    dep: ResolvedDepModel,
) -> bool {
    exists|name: Seq<char>|
        {
            &&& #[trigger] installed.contains_key(name)
            &&& gives_id(rule, name, dep.mod_id)
            &&& lowercase(dep.mod_id) == key
            &&& dep.mod_name == installed[name].mod_name
            &&& dep.version_to_install == installed[name].installed_version
            &&& dep.download_url.len() == 0
            &&& dep.requesters.len() == 1
            &&& dep.requesters[0].mod_id == "installed"@
            &&& dep.requesters[0].required_version == installed[name].installed_version
        }
}

/// Whether the graph has the mod into whose id the rule splits a name.
pub open spec fn is_seen<S: Fn(&str) -> (String, Option<String>)>(
    rule: S,
    graph: Map<Seq<char>, ResolvedDepModel>,
    name: Seq<char>,
) -> bool {
    exists|id: Seq<char>| #[trigger] gives_id(rule, name, id) && graph.contains_key(lowercase(id))
}

/// The graph knows every installed mod by its id, and what it gets of them is what the sync
/// information says.
pub proof fn law_graph_knows_the_installed<S: Fn(&str) -> (String, Option<String>)>(
    rule: S,
    installed: Map<Seq<char>, SyncModel>,
    graph: Map<Seq<char>, ResolvedDepModel>,
    ids: Seq<Seq<char>>,
)
    requires
        installed.dom().finite(),
        ids_may_be(rule, installed, ids),
    ensures
        ({
            let after = with_installed(graph, ids, values_in_order(installed));
            &&& graph.submap_of(after)
            &&& forall|key: Seq<char>| #[trigger]
                after.contains_key(key) && !graph.contains_key(key) ==> comes_of_installed(
                    rule,
                    installed,
                    key,
                    after[key],
                )
            &&& forall|name: Seq<char>| #[trigger]
                installed.contains_key(name) ==> is_seen(rule, after, name)
        }),
{
    let names = in_order(installed.dom());
    let infos = values_in_order(installed);
    let after = with_installed(graph, ids, infos);
    lemma_finite_in_order(installed.dom());
    assert forall|key: Seq<char>| #[trigger] graph.contains_key(key) implies after.contains_key(key)
        && after[key] == graph[key] by {
        law_requested_not_clobbered(graph, ids, infos, key);
    }
    assert forall|key: Seq<char>| #[trigger]
        after.contains_key(key) && !graph.contains_key(key) implies comes_of_installed(
        rule,
        installed,
        key,
        after[key],
    ) by {
        law_installed_mods_are_noted(graph, ids, infos, key);
        let i = choose|i: int| #[trigger] known_as_installed(ids, infos, key, after[key], i);
        assert(is_id_of(rule, names[i], ids[i]));
        law_id_is_given(rule, names[i], ids[i]);
        assert(names.to_set().contains(names[i]));
        assert(installed.contains_key(names[i]));
    }
    assert forall|name: Seq<char>| #[trigger] installed.contains_key(name) implies is_seen(
        rule,
        after,
        name,
    ) by {
        assert(names.to_set().contains(name));
        let i = choose|i: int| 0 <= i < names.len() && names[i] == name;
        assert(is_id_of(rule, names[i], ids[i]));
        law_id_is_given(rule, names[i], ids[i]);
        law_installed_are_seen(graph, ids, infos, i);
        assert(gives_id(rule, name, ids[i]));
    }
}

/// What the mods ask for, one after the other: nothing where there are none, and what more mods ask
/// for comes behind what the others ask for.
pub proof fn law_demands_add_up(
    a: Seq<(Seq<char>, Map<Seq<char>, Seq<char>>)>,
    b: Seq<(Seq<char>, Map<Seq<char>, Seq<char>>)>,
)
    ensures
        demands(a + b) == demands(a) + demands(b),
    decreases b.len(),
{
    if b.len() == 0 {
        assert(a + b =~= a);
        assert(demands(a) + demands(b) =~= demands(a));
    } else {
        law_demands_add_up(a, b.drop_last());
        assert((a + b).drop_last() =~= a + b.drop_last());
        assert(demands(a + b) =~= demands(a) + demands(b));
    }
}

/// Those who ask for a dependency keep their order: those who ask later come behind the others.
pub proof fn law_askers_keep_their_order(a: Seq<DemandModel>, b: Seq<DemandModel>, key: Seq<char>)
    ensures
        asking(a + b, key) == asking(a, key) + asking(b, key),
        a.len() == 1 && lowercase(a[0].dep_id) == key ==> asking(a, key) == seq![a[0].requester],
        a.len() == 1 && lowercase(a[0].dep_id) != key ==> asking(a, key).len() == 0,
    decreases b.len(),
{
    if a.len() == 1 {
        assert(asking(a.drop_last(), key) =~= Seq::empty());
        assert(Seq::<RequesterModel>::empty().push(a[0].requester) =~= seq![a[0].requester]);
    }
    if b.len() == 0 {
        assert(a + b =~= a);
        assert(asking(a, key) + asking(b, key) =~= asking(a, key));
    } else {
        law_askers_keep_their_order(a, b.drop_last(), key);
        assert((a + b).drop_last() =~= a + b.drop_last());
        assert(asking(a + b, key) =~= asking(a, key) + asking(b, key));
    }
}

/// Whether one of the mods declares that it depends on a mod with this id in lowercase, and
/// `requester` says which one and on which version.
pub open spec fn declares(
    mods: Seq<(Seq<char>, Map<Seq<char>, Seq<char>>)>,
    key: Seq<char>,
    requester: RequesterModel,
) -> bool {
    exists|i: int, dep_id: Seq<char>|
        0 <= i < mods.len() && #[trigger] mods[i].1.contains_key(dep_id) && lowercase(dep_id)
            == key && requester.mod_id == mods[i].0 && requester.required_version
            == mods[i].1[dep_id]
}

proof fn lemma_demanded(
    mods: Seq<(Seq<char>, Map<Seq<char>, Seq<char>>)>,
    key: Seq<char>,
    requester: RequesterModel,
)
    requires
        forall|i: int| 0 <= i < mods.len() ==> (#[trigger] mods[i]).1.dom().finite(),
    ensures
        declares(mods, key, requester) <==> exists|k: int|
            0 <= k < demands(mods).len() && lowercase((#[trigger] demands(mods)[k]).dep_id) == key
                && demands(mods)[k].requester == requester,
    decreases mods.len(),
{
    if mods.len() > 0 {
        let rest = mods.drop_last();
        let n = mods.len() - 1;
        assert forall|i: int| 0 <= i < rest.len() implies (#[trigger] rest[i]).1.dom().finite() by {
            assert(rest[i] == mods[i]);
        }
        lemma_demanded(rest, key, requester);
        let before = demands(rest);
        let here = demands_of(mods[n].0, mods[n].1);
        let all = demands(mods);
        assert(all == before + here);
        assert(mods[n].1.dom().finite());
        let names = in_order(mods[n].1.dom());
        lemma_finite_in_order(mods[n].1.dom());
        if declares(mods, key, requester) {
            let (i, dep_id) = choose|i: int, dep_id: Seq<char>|
                0 <= i < mods.len() && #[trigger] mods[i].1.contains_key(dep_id) && lowercase(
                    dep_id,
                ) == key && requester.mod_id == mods[i].0 && requester.required_version
                    == mods[i].1[dep_id];
            if i < n {
                assert(rest[i].1.contains_key(dep_id));
                let k = choose|k: int|
                    0 <= k < before.len() && lowercase((#[trigger] before[k]).dep_id) == key
                        && before[k].requester == requester;
                assert(all[k] == before[k]);
            } else {
                assert(names.to_set().contains(dep_id));
                let k = choose|k: int| 0 <= k < names.len() && names[k] == dep_id;
                assert(all[before.len() + k] == here[k]);
                assert(here[k].requester =~= requester);
            }
        }
        if exists|k: int|
            0 <= k < all.len() && lowercase((#[trigger] all[k]).dep_id) == key
                && all[k].requester == requester {
            let k = choose|k: int|
                0 <= k < all.len() && lowercase((#[trigger] all[k]).dep_id) == key
                    && all[k].requester == requester;
            if k < before.len() {
                assert(before[k] == all[k]);
                let (i, dep_id) = choose|i: int, dep_id: Seq<char>|
                    0 <= i < rest.len() && #[trigger] rest[i].1.contains_key(dep_id) && lowercase(
                        dep_id,
                    ) == key && requester.mod_id == rest[i].0 && requester.required_version
                        == rest[i].1[dep_id];
                assert(mods[i].1.contains_key(dep_id));
            } else {
                let j = k - before.len();
                assert(all[k] == here[j]);
                assert(names.to_set().contains(names[j]));
                assert(mods[n].1.contains_key(names[j]));
            }
        }
    }
}

proof fn lemma_asking(demands: Seq<DemandModel>, key: Seq<char>, requester: RequesterModel)
    ensures
        asking(demands, key).contains(requester) <==> exists|k: int|
            0 <= k < demands.len() && lowercase((#[trigger] demands[k]).dep_id) == key
                && demands[k].requester == requester,
    decreases demands.len(),
{
    if demands.len() > 0 {
        let rest = demands.drop_last();
        lemma_asking(rest, key, requester);
        let before = asking(rest, key);
        let all = asking(demands, key);
        if before.contains(requester) {
            let k = choose|k: int|
                0 <= k < rest.len() && lowercase((#[trigger] rest[k]).dep_id) == key
                    && rest[k].requester == requester;
            assert(demands[k] == rest[k]);
            let j = choose|j: int| 0 <= j < before.len() && before[j] == requester;
            assert(all[j] == requester);
        }
        if all.contains(requester) && !before.contains(requester) {
            let j = choose|j: int| 0 <= j < all.len() && all[j] == requester;
            if j < before.len() {
                assert(before[j] == requester);
            }
            assert(demands[demands.len() - 1] == demands.last());
        }
        if exists|k: int|
            0 <= k < demands.len() && lowercase((#[trigger] demands[k]).dep_id) == key
                && demands[k].requester == requester {
            let k = choose|k: int|
                0 <= k < demands.len() && lowercase((#[trigger] demands[k]).dep_id) == key
                    && demands[k].requester == requester;
            if k < rest.len() {
                assert(rest[k] == demands[k]);
            } else {
                assert(all[before.len() as int] == requester);
            }
        }
    }
}

/// Who asks for a new dependency are just the downloaded mods that declare it, with the versions
/// that they declare. A dependency is new where one of them declares it and the walk has not seen
/// it.
pub proof fn law_requesters_are_those_who_declare(
    mods: Seq<(Seq<char>, Map<Seq<char>, Seq<char>>)>,
    seen: Set<Seq<char>>,
    key: Seq<char>,
    requester: RequesterModel,
)
    requires
        forall|i: int| 0 <= i < mods.len() ==> (#[trigger] mods[i]).1.dom().finite(),
    ensures
        grouped(demands(mods), seen).contains_key(key) ==> !seen.contains(key) && grouped(
            demands(mods),
            seen,
        )[key].len() > 0,
        declares(mods, key, requester) && !seen.contains(key) <==> grouped(
            demands(mods),
            seen,
        ).contains_key(key) && grouped(demands(mods), seen)[key].contains(requester),
{
    lemma_demanded(mods, key, requester);
    lemma_asking(demands(mods), key, requester);
}

} // verus!
