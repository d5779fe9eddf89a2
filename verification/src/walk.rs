//! The walk along the dependencies: what was asked for is downloaded, then what that depends on,
//! and so on, each mod once.

use crate::aliases::{DownloadURL, ModID, ModName, ModVersion};
use crate::answers::{answers, askable, ids_may_be, is_id_of, splits, Pick};
use crate::dependencies::{
    dependency_resolves_to, resolve_dependency, usable, Requester, RequesterModel, VersionRules,
};
use crate::install_manager::{
    ApiMod, ApiModModel, Install, InstallModel, Installed, InstalledModel,
};
use crate::keyed::{in_order, lemma_in_order, lists_in_order, values_in_order, ModMap};
use crate::messages::{Notice, NoticeModel};
use crate::package::Package;
use crate::questions::replies;
use crate::resolve_installs::{fresh_install, lookup};
use crate::sync::{ModSyncInfo, SyncModel};
use crate::text::{join, joined, lowercase, to_lowercase};
use crate::walk_laws::{
    are_the_first, asked_for_by_user, comes_of_installed, declares, is_seen, is_taken_in,
    law_graph_knows_the_installed, law_no_mod_queued_twice, law_queued_dependencies_are_picked,
    law_requesters_are_those_who_declare, law_walk_starts_with_the_first_of_each, tells_missing,
};
use vstd::prelude::*;

verus! {

/// A mod of the dependency graph: the version that was settled on, and who asked for it.
#[derive(Debug, Clone)]
pub struct ResolvedDep {
    pub mod_id: ModID,
    pub mod_name: ModName,
    pub version_to_install: ModVersion,
    pub download_url: DownloadURL,
    pub requesters: Vec<Requester>,
}

/// What a mod of the dependency graph says.
#[verifier::ext_equal]
pub struct ResolvedDepModel {
    pub mod_id: Seq<char>,
    pub mod_name: Seq<char>,
    pub version_to_install: Seq<char>,
    pub download_url: Seq<char>,
    pub requesters: Seq<RequesterModel>,
}

impl DeepView for ResolvedDep {
    type V = ResolvedDepModel;

    open spec fn deep_view(&self) -> ResolvedDepModel {
        ResolvedDepModel {
            mod_id: self.mod_id@,
            mod_name: self.mod_name@,
            version_to_install: self.version_to_install@,
            download_url: self.download_url@,
            requesters: self.requesters.deep_view(),
        }
    }
}

/// The mods that the walk has seen, by their id in lowercase.
pub type DependencyGraph = ModMap<ResolvedDep>;

/// The walk: the mods that it has seen, those that are to be downloaded next, those that were
/// downloaded, and the dependencies that could not be got hold of.
pub struct DependencyWalk {
    pub graph: DependencyGraph,
    pub queue: Vec<Install>,
    pub installed: Vec<Installed>,
    pub unresolved: Vec<String>,
    /// Whether exactly what was asked for is installed, without looking for what it needs.
    pub ignore_dependencies: bool,
}

/// What a walk has come to.
#[verifier::ext_equal]
pub struct WalkModel {
    pub graph: Map<Seq<char>, ResolvedDepModel>,
    pub queue: Seq<InstallModel>,
    pub installed: Seq<InstalledModel>,
    pub unresolved: Seq<Seq<char>>,
    pub ignore_dependencies: bool,
}

impl DeepView for DependencyWalk {
    type V = WalkModel;

    open spec fn deep_view(&self) -> WalkModel {
        WalkModel {
            graph: self.graph@,
            queue: self.queue.deep_view(),
            installed: self.installed.deep_view(),
            unresolved: self.unresolved.deep_view(),
            ignore_dependencies: self.ignore_dependencies,
        }
    }
}

/// The mod of the graph that the user asked for.
pub open spec fn requested_dep(install: InstallModel) -> ResolvedDepModel {
    ResolvedDepModel {
        mod_id: install.mod_id,
        mod_name: install.mod_name,
        version_to_install: install.version_to_install,
        download_url: install.download_url,
        requesters: seq![
            RequesterModel { mod_id: "user"@, required_version: install.version_to_install },
        ],
    }
}

/// The mod of the graph that is installed already.
pub open spec fn installed_dep(mod_id: Seq<char>, info: SyncModel) -> ResolvedDepModel {
    ResolvedDepModel {
        mod_id,
        mod_name: info.mod_name,
        version_to_install: info.installed_version,
        download_url: Seq::empty(),
        requesters: seq![
            RequesterModel { mod_id: "installed"@, required_version: info.installed_version },
        ],
    }
}

/// Whether one of the installs is of the mod.
pub open spec fn installs_mod(installs: Seq<InstallModel>, key: Seq<char>) -> bool {
    exists|i: int| 0 <= i < installs.len() && lowercase(#[trigger] installs[i].mod_id) == key
}

/// The installs but for those whose mod occurs before them.
pub open spec fn first_of_each(installs: Seq<InstallModel>) -> Seq<InstallModel>
    decreases installs.len(),
{
    if installs.len() == 0 {
        Seq::empty()
    } else {
        let before = first_of_each(installs.drop_last());
        if installs_mod(before, lowercase(installs.last().mod_id)) {
            before
        } else {
            before.push(installs.last())
        }
    }
}

/// The graph of the mods that the user asked for.
pub open spec fn requested_graph(installs: Seq<InstallModel>) -> Map<Seq<char>, ResolvedDepModel>
    decreases installs.len(),
{
    if installs.len() == 0 {
        Map::empty()
    } else {
        requested_graph(installs.drop_last()).insert(
            lowercase(installs.last().mod_id),
            requested_dep(installs.last()),
        )
    }
}

/// The walk at its start: the first of each mod that was asked for is in the graph and to be
/// downloaded.
pub open spec fn started(installs: Seq<InstallModel>, ignore_dependencies: bool) -> WalkModel {
    WalkModel {
        graph: requested_graph(first_of_each(installs)),
        queue: first_of_each(installs),
        installed: Seq::empty(),
        unresolved: Seq::empty(),
        ignore_dependencies,
    }
}

/// The graph with the mods that are installed already put in where it has none of their id.
pub open spec fn with_installed(
    graph: Map<Seq<char>, ResolvedDepModel>,
    ids: Seq<Seq<char>>,
    infos: Seq<SyncModel>,
) -> Map<Seq<char>, ResolvedDepModel>
    decreases ids.len(),
{
    if ids.len() == 0 {
        graph
    } else {
        let before = with_installed(graph, ids.drop_last(), infos.drop_last());
        let key = lowercase(ids.last());
        if before.contains_key(key) {
            before
        } else {
            before.insert(key, installed_dep(ids.last(), infos.last()))
        }
    }
}

/// The mods of the graph are those that were asked for.
pub proof fn lemma_requested_keys(installs: Seq<InstallModel>)
    ensures
        forall|key: Seq<char>| #[trigger]
            requested_graph(installs).contains_key(key) <==> installs_mod(installs, key),
    decreases installs.len(),
{
    if installs.len() > 0 {
        let rest = installs.drop_last();
        lemma_requested_keys(rest);
        assert forall|key: Seq<char>| #[trigger]
            requested_graph(installs).contains_key(key) <==> installs_mod(installs, key) by {
            assert(requested_graph(rest).contains_key(key) <==> installs_mod(rest, key));
            if installs_mod(rest, key) {
                let i = choose|i: int|
                    0 <= i < rest.len() && lowercase(#[trigger] rest[i].mod_id) == key;
                assert(lowercase(installs[i].mod_id) == key);
            }
            if installs_mod(installs, key) {
                let i = choose|i: int|
                    0 <= i < installs.len() && lowercase(#[trigger] installs[i].mod_id) == key;
                if i < rest.len() {
                    assert(lowercase(rest[i].mod_id) == key);
                }
            }
            if lowercase(installs.last().mod_id) == key {
                assert(lowercase(installs[installs.len() - 1].mod_id) == key);
            }
        }
    }
}

impl DependencyWalk {
    /// Starts a walk at what was actually asked for, which is downloaded no matter what, even if
    /// it is already installed.
    pub fn start(initial_mods: Vec<Install>, ignore_dependencies: bool) -> (r: Self)
        ensures
            r.deep_view() == started(initial_mods.deep_view(), ignore_dependencies),
            exists|places: Seq<int>| #[trigger]
                are_the_first(initial_mods.deep_view(), places, r.deep_view().queue),
            forall|k: int|
                0 <= k < r.queue.len() ==> asked_for_by_user(
                    r.deep_view().graph,
                    #[trigger] r.deep_view().queue[k],
                ),
    {
        proof {
            law_walk_starts_with_the_first_of_each(initial_mods.deep_view(), ignore_dependencies);
        }
        let mut graph: DependencyGraph = ModMap::new();
        let mut queue: Vec<Install> = Vec::new();
        let ghost all = initial_mods.deep_view();
        assert(all.take(0) =~= Seq::empty());
        for install in it: initial_mods
            invariant
                it.seq() == initial_mods@,
                all == initial_mods.deep_view(),
                queue.deep_view() == first_of_each(all.take(it.index())),
                graph@ == requested_graph(queue.deep_view()),
        {
            let ghost n = it.index();
            let ghost before = queue.deep_view();
            proof {
                assert(all[n] == install.deep_view());
                assert(all.take(n + 1).drop_last() =~= all.take(n));
                lemma_requested_keys(before);
            }
            let key = to_lowercase(install.mod_id.as_str());
            if !graph.contains_key(key.as_str()) {
                let mut requesters: Vec<Requester> = Vec::new();
                requesters.push(
                    Requester {
                        mod_id: "user".to_owned(),
                        required_version: install.version_to_install.clone(),
                    },
                );
                let dep = ResolvedDep {
                    mod_id: install.mod_id.clone(),
                    mod_name: install.mod_name.clone(),
                    version_to_install: install.version_to_install.clone(),
                    download_url: install.download_url.clone(),
                    requesters,
                };
                assert(dep.deep_view() =~= requested_dep(install.deep_view()));
                graph.insert(key, dep);
                queue.push(install);
                proof {
                    assert(queue.deep_view() =~= before.push(install.deep_view()));
                    assert(queue.deep_view().drop_last() =~= before);
                }
            }
        }
        assert(all.take(all.len() as int) =~= all);
        DependencyWalk {
            graph,
            queue,
            installed: Vec::new(),
            unresolved: Vec::new(),
            ignore_dependencies,
        }
    }

    /// Puts the mods that are installed already into the graph, so that the walk skips them. A
    /// mod that was asked for keeps its place, with the version that is being installed.
    pub fn skip_installed<S: Fn(&str) -> (String, Option<String>)>(
        &mut self,
        installed_mods: &ModMap<ModSyncInfo>,
        split_modid_version: &S,
    )
        requires
            askable(*split_modid_version),
        ensures
            exists|ids: Seq<Seq<char>>| #[trigger]
                ids_may_be(*split_modid_version, installed_mods@, ids) && final(self).deep_view()
                    == (WalkModel {
                    graph: with_installed(
                        old(self).deep_view().graph,
                        ids,
                        values_in_order(installed_mods@),
                    ),
                    ..old(self).deep_view()
                }),
            old(self).deep_view().graph.submap_of(final(self).deep_view().graph),
            forall|key: Seq<char>| #[trigger]
                final(self).deep_view().graph.contains_key(key)
                    && !old(self).deep_view().graph.contains_key(key) ==> comes_of_installed(
                    *split_modid_version,
                    installed_mods@,
                    key,
                    final(self).deep_view().graph[key],
                ),
            forall|name: Seq<char>| #[trigger]
                installed_mods@.contains_key(name) ==> is_seen(
                    *split_modid_version,
                    final(self).deep_view().graph,
                    name,
                ),
    {
        let n = installed_mods.len();
        let ghost names = in_order(installed_mods@.dom());
        let ghost infos = values_in_order(installed_mods@);
        let ghost graph = self.graph@;
        let ghost mut ids: Seq<Seq<char>> = Seq::empty();
        let mut i: usize = 0;
        assert(infos.take(0) =~= Seq::empty());
        while i < n
            invariant
                i <= n,
                n == names.len(),
                n == installed_mods@.dom().len(),
                names == in_order(installed_mods@.dom()),
                infos == values_in_order(installed_mods@),
                askable(*split_modid_version),
                ids.len() == i,
                forall|j: int|
                    0 <= j < i ==> is_id_of(*split_modid_version, names[j], #[trigger] ids[j]),
                self.graph@ == with_installed(graph, ids, infos.take(i as int)),
                self.queue == old(self).queue,
                self.installed == old(self).installed,
                self.unresolved == old(self).unresolved,
                self.ignore_dependencies == old(self).ignore_dependencies,
            decreases n - i,
        {
            let name = installed_mods.name_at(i);
            let info = installed_mods.value_at(i);
            let split = split_modid_version(name.as_str());
            let ghost before = ids;
            proof {
                assert(answers(*split_modid_version, name@, split));
                assert(splits(*split_modid_version, name@, split.0@, split.1.deep_view()));
                assert(is_id_of(*split_modid_version, names[i as int], split.0@));
                ids = before.push(split.0@);
                assert(ids.drop_last() =~= before);
                assert(infos.take(i + 1).drop_last() =~= infos.take(i as int));
                assert(infos.take(i + 1).last() == info.deep_view());
            }
            let mod_id = split.0;
            let key = to_lowercase(mod_id.as_str());
            if !self.graph.contains_key(key.as_str()) {
                let mut requesters: Vec<Requester> = Vec::new();
                requesters.push(
                    Requester {
                        mod_id: "installed".to_owned(),
                        required_version: info.installed_version.clone(),
                    },
                );
                let dep = ResolvedDep {
                    mod_id,
                    mod_name: info.mod_name.clone(),
                    version_to_install: info.installed_version.clone(),
                    download_url: String::new(),
                    requesters,
                };
                assert(dep.deep_view() =~= installed_dep(mod_id@, info.deep_view()));
                self.graph.insert(key, dep);
            }
            i = i + 1;
        }
        assert(infos.take(n as int) =~= infos);
        assert(ids_may_be(*split_modid_version, installed_mods@, ids));
        proof {
            law_graph_knows_the_installed(*split_modid_version, installed_mods@, graph, ids);
        }
    }

    /// Takes all that is to be downloaded next out of the queue. The walk is over once there is
    /// nothing left.
    pub fn next_batch(&mut self) -> (r: Option<Vec<Install>>)
        ensures
            r.deep_view() == (if old(self).deep_view().queue.len() == 0 {
                None
            } else {
                Some(old(self).deep_view().queue)
            }),
            final(self).deep_view() == (WalkModel {
                queue: Seq::empty(),
                ..old(self).deep_view()
            }),
    {
        let mut batch: Vec<Install> = Vec::new();
        std::mem::swap(&mut batch, &mut self.queue);
        assert(self.queue.deep_view() =~= Seq::empty());
        if batch.len() == 0 {
            None
        } else {
            Some(batch)
        }
    }

    /// Notes what was downloaded, and tells whether to look for what it needs.
    pub fn record(&mut self, downloaded: Vec<Installed>) -> (r: bool)
        ensures
            r == !old(self).ignore_dependencies,
            final(self).deep_view() == (WalkModel {
                installed: old(self).deep_view().installed + downloaded.deep_view(),
                ..old(self).deep_view()
            }),
    {
        let mut more = downloaded;
        let ghost before = self.installed.deep_view();
        self.installed.append(&mut more);
        assert(self.installed.deep_view() =~= before + downloaded.deep_view());
        !self.ignore_dependencies
    }
}

/// What a mod declares that it depends on, without what is part of the base game.
pub open spec fn without_base_game(
    dependencies: Map<Seq<char>, Seq<char>>,
    base_game: Map<Seq<char>, bool>,
) -> Map<Seq<char>, Seq<char>> {
    Map::new(
        |dep_id: Seq<char>| dependencies.contains_key(dep_id) && !base_game[dep_id],
        |dep_id: Seq<char>| dependencies[dep_id],
    )
}

/// Whether `rule` may answer of each dependency whether it is part of the base game as
/// `base_game` says.
pub open spec fn tells_apart<B: Fn(&str) -> bool>(
    rule: B,
    dependencies: Map<Seq<char>, Seq<char>>,
    base_game: Map<Seq<char>, bool>,
) -> bool {
    forall|dep_id: Seq<char>| #[trigger]
        dependencies.contains_key(dep_id) ==> answers(rule, dep_id, base_game[dep_id])
}

/// The dependencies of a mod that can be downloaded, if there are any. `is_base_game_dep` tells
/// what is part of the base game.
pub fn downloadable_dependencies<B: Fn(&str) -> bool>(
    mod_id: &str,
    dependencies: &ModMap<ModVersion>,
    is_base_game_dep: &B,
) -> (r: Option<(ModID, ModMap<ModVersion>)>)
    requires
        askable(*is_base_game_dep),
    ensures
        exists|base_game: Map<Seq<char>, bool>| #[trigger]
            tells_apart(*is_base_game_dep, dependencies@, base_game) && r.deep_view() == (if without_base_game(
                dependencies@,
                base_game,
            ) == Map::<Seq<char>, Seq<char>>::empty() {
                None
            } else {
                Some((mod_id@, without_base_game(dependencies@, base_game)))
            }),
        r matches Some(kept) ==> kept.0@ == mod_id@ && kept.1@.submap_of(dependencies@)
            && kept.1@.dom().len() > 0,
        forall|dep_id: Seq<char>| #[trigger]
            dependencies@.contains_key(dep_id) ==> replies(
                *is_base_game_dep,
                dep_id,
                !(r is Some && (r->0).1@.contains_key(dep_id)),
            ),
{
    let mut kept: ModMap<ModVersion> = ModMap::new();
    let ghost all = dependencies@;
    let ghost mut base_game: Map<Seq<char>, bool> = Map::empty();
    let n = dependencies.len();
    let ghost names = in_order(all.dom());
    let mut i: usize = 0;
    proof {
        lemma_in_order(names, all.dom());
    }
    while i < n
        invariant
            i <= n,
            n == names.len(),
            n == all.dom().len(),
            all == dependencies@,
            names == in_order(all.dom()),
            names.no_duplicates(),
            askable(*is_base_game_dep),
            forall|j: int|
                0 <= j < i ==> answers(*is_base_game_dep, #[trigger] names[j], base_game[names[j]]),
            forall|k: Seq<char>| #[trigger]
                kept@.contains_key(k) <==> exists|j: int|
                    0 <= j < i && #[trigger] names[j] == k && !base_game[k],
            forall|k: Seq<char>| #[trigger]
                kept@.contains_key(k) ==> all.contains_key(k) && kept@[k] == all[k],
        decreases n - i,
    {
        let name = dependencies.name_at(i);
        let ghost before = base_game;
        let ghost old_kept = kept@;
        let base = is_base_game_dep(name.as_str());
        proof {
            assert(answers(*is_base_game_dep, name@, base));
            base_game = before.insert(name@, base);
            assert forall|j: int| 0 <= j < i implies base_game[#[trigger] names[j]]
                == before[names[j]] by {
                assert(names[j] != names[i as int]);
            }
        }
        if !base {
            kept.insert(name.clone(), dependencies.value_at(i).clone());
        }
        proof {
            assert forall|k: Seq<char>| #[trigger]
                kept@.contains_key(k) <==> exists|j: int|
                    0 <= j < i + 1 && #[trigger] names[j] == k && !base_game[k] by {
                if kept@.contains_key(k) {
                    if old_kept.contains_key(k) {
                        let j = choose|j: int|
                            0 <= j < i && #[trigger] names[j] == k && !before[k];
                        assert(names[j] == k && !base_game[k]);
                    } else {
                        assert(names[i as int] == k && !base_game[k]);
                    }
                }
                if exists|j: int| 0 <= j < i + 1 && #[trigger] names[j] == k && !base_game[k] {
                    let j = choose|j: int|
                        0 <= j < i + 1 && #[trigger] names[j] == k && !base_game[k];
                    if j < i {
                        assert(names[j] == k && !before[k]);
                        assert(old_kept.contains_key(k));
                    }
                }
            }
        }
        i = i + 1;
    }
    proof {
        assert forall|k: Seq<char>| #[trigger] all.contains_key(k) implies answers(
            *is_base_game_dep,
            k,
            base_game[k],
        ) && names.contains(k) by {
            assert(names.to_set().contains(k));
            let j = choose|j: int| 0 <= j < names.len() && names[j] == k;
            assert(answers(*is_base_game_dep, names[j], base_game[names[j]]));
        }
        assert(kept@ =~= without_base_game(all, base_game)) by {
            assert forall|k: Seq<char>| #[trigger]
                kept@.contains_key(k) <==> all.contains_key(k) && !base_game[k] by {
                if all.contains_key(k) && !base_game[k] {
                    assert(names.contains(k));
                    let j = choose|j: int| 0 <= j < names.len() && names[j] == k;
                    assert(names[j] == k && !base_game[k]);
                }
            }
        }
        assert(tells_apart(*is_base_game_dep, all, base_game));
    }
    proof {
        assert forall|dep_id: Seq<char>| #[trigger] all.contains_key(dep_id) implies replies(
            *is_base_game_dep,
            dep_id,
            !kept@.contains_key(dep_id),
        ) by {
            assert(answers(*is_base_game_dep, dep_id, base_game[dep_id]));
            assert(kept@.contains_key(dep_id) <==> !base_game[dep_id]);
        }
    }
    if kept.is_empty() {
        None
    } else {
        assert(kept@.dom().len() > 0) by {
            if kept@.dom().len() == 0 {
                assert(kept@.dom().subset_of(all.dom()));
                vstd::set_lib::lemma_len_subset(kept@.dom(), all.dom());
                assert(kept@.dom() =~= Set::empty());
                assert(kept@ =~= Map::empty());
            }
        }
        Some((mod_id.to_owned(), kept))
    }
}

/// One mod that asks for a dependency.
#[verifier::ext_equal]
pub struct DemandModel {
    pub dep_id: Seq<char>,
    pub requester: RequesterModel,
}

/// What one mod asks for, in the order of the ids.
pub open spec fn demands_of(mod_id: Seq<char>, dependencies: Map<Seq<char>, Seq<char>>) -> Seq<
    DemandModel,
> {
    Seq::new(
        in_order(dependencies.dom()).len(),
        |i: int|
            {
                let dep_id = in_order(dependencies.dom())[i];
                DemandModel {
                    dep_id,
                    requester: RequesterModel { mod_id, required_version: dependencies[dep_id] },
                }
            },
    )
}

/// What the mods ask for, one mod after the other.
pub open spec fn demands(mods: Seq<(Seq<char>, Map<Seq<char>, Seq<char>>)>) -> Seq<DemandModel>
    decreases mods.len(),
{
    if mods.len() == 0 {
        Seq::empty()
    } else {
        demands(mods.drop_last()) + demands_of(mods.last().0, mods.last().1)
    }
}

/// The mods that ask for one dependency, however they spell it.
pub open spec fn asking(demands: Seq<DemandModel>, key: Seq<char>) -> Seq<RequesterModel>
    decreases demands.len(),
{
    if demands.len() == 0 {
        Seq::empty()
    } else {
        let before = asking(demands.drop_last(), key);
        if lowercase(demands.last().dep_id) == key {
            before.push(demands.last().requester)
        } else {
            before
        }
    }
}

/// Every dependency that is asked for and not in `seen`, with all who ask for it.
pub open spec fn grouped(demands: Seq<DemandModel>, seen: Set<Seq<char>>) -> Map<
    Seq<char>,
    Seq<RequesterModel>,
> {
    Map::new(
        |key: Seq<char>| !seen.contains(key) && asking(demands, key).len() > 0,
        |key: Seq<char>| asking(demands, key),
    )
}

proof fn lemma_grouped_push(demands: Seq<DemandModel>, seen: Set<Seq<char>>, demand: DemandModel)
    ensures
        grouped(demands.push(demand), seen) == ({
            let key = lowercase(demand.dep_id);
            if seen.contains(key) {
                grouped(demands, seen)
            } else {
                grouped(demands, seen).insert(key, asking(demands, key).push(demand.requester))
            }
        }),
        !grouped(demands, seen).contains_key(lowercase(demand.dep_id)) && !seen.contains(
            lowercase(demand.dep_id),
        ) ==> asking(demands, lowercase(demand.dep_id)) == Seq::<RequesterModel>::empty(),
{
    let more = demands.push(demand);
    assert(more.drop_last() =~= demands);
    let key = lowercase(demand.dep_id);
    let after = if seen.contains(key) {
        grouped(demands, seen)
    } else {
        grouped(demands, seen).insert(key, asking(demands, key).push(demand.requester))
    };
    assert(grouped(more, seen) =~= after);
    if asking(demands, key).len() == 0 {
        assert(asking(demands, key) =~= Seq::empty());
    }
}

impl DependencyWalk {
    /// Groups what the downloaded mods ask for under the dependency it belongs to, leaving out
    /// the mods that the walk has seen.
    pub fn new_dependencies(&self, downloaded: &Vec<(ModID, ModMap<ModVersion>)>) -> (r: ModMap<
        Vec<Requester>,
    >)
        ensures
            r@ == grouped(demands(downloaded.deep_view()), self.graph@.dom()),
            forall|key: Seq<char>| #[trigger]
                r@.contains_key(key) ==> !self.graph@.contains_key(key) && r@[key].len() > 0,
            forall|key: Seq<char>, requester: RequesterModel| #[trigger]
                declares(downloaded.deep_view(), key, requester) && !self.graph@.contains_key(key)
                    ==> r@.contains_key(key) && r@[key].contains(requester),
            forall|key: Seq<char>, requester: RequesterModel|
                r@.contains_key(key) && #[trigger] r@[key].contains(requester) ==> declares(
                    downloaded.deep_view(),
                    key,
                    requester,
                ),
    {
        let mut new_deps: ModMap<Vec<Requester>> = ModMap::new();
        let ghost mods = downloaded.deep_view();
        let ghost seen = self.graph@.dom();
        assert(demands(mods.take(0)) =~= Seq::empty());
        assert(new_deps@ =~= grouped(demands(mods.take(0)), seen));
        let mut i: usize = 0;
        while i < downloaded.len()
            invariant
                i <= downloaded.len(),
                mods == downloaded.deep_view(),
                seen == self.graph@.dom(),
                new_deps@ == grouped(demands(mods.take(i as int)), seen),
                forall|k: int| 0 <= k < i ==> (#[trigger] mods[k]).1.dom().finite(),
            decreases downloaded.len() - i,
        {
            let mod_id = &downloaded[i].0;
            let dependencies = &downloaded[i].1;
            let n = dependencies.len();
            let ghost before = demands(mods.take(i as int));
            let ghost here = demands_of(mod_id@, dependencies@);
            proof {
                assert(mods[i as int] == (mod_id@, dependencies@));
                assert(mods.take(i + 1).drop_last() =~= mods.take(i as int));
                assert(before + here.take(0) =~= before);
            }
            let mut j: usize = 0;
            while j < n
                invariant
                    j <= n,
                    n == here.len(),
                    n == dependencies@.dom().len(),
                    here == demands_of(mod_id@, dependencies@),
                    seen == self.graph@.dom(),
                    new_deps@ == grouped(before + here.take(j as int), seen),
                decreases n - j,
            {
                let dep_id = dependencies.name_at(j);
                let required_version = dependencies.value_at(j);
                let ghost so_far = before + here.take(j as int);
                proof {
                    assert(before + here.take(j + 1) =~= so_far.push(here[j as int]));
                    lemma_grouped_push(so_far, seen, here[j as int]);
                }
                let key = to_lowercase(dep_id.as_str());
                if !self.graph.contains_key(key.as_str()) {
                    let mut requesters = match new_deps.remove(key.as_str()) {
                        Some(requesters) => requesters,
                        None => Vec::new(),
                    };
                    let ghost asked = requesters.deep_view();
                    assert(asked =~= asking(so_far, key@));
                    let requester = Requester {
                        mod_id: mod_id.clone(),
                        required_version: required_version.clone(),
                    };
                    requesters.push(requester);
                    assert(requesters.deep_view() =~= asked.push(here[j as int].requester));
                    let ghost group = requesters.deep_view();
                    new_deps.insert(key, requesters);
                    assert(new_deps@ =~= grouped(so_far, seen).insert(key@, group));
                }
                j = j + 1;
            }
            assert(here.take(n as int) =~= here);
            i = i + 1;
        }
        proof {
            assert(mods.take(mods.len() as int) =~= mods);
            assert forall|key: Seq<char>, requester: RequesterModel|
                (declares(mods, key, requester) && !seen.contains(key)) <==> (
                #[trigger] grouped(demands(mods), seen).contains_key(key) && #[trigger] grouped(
                    demands(mods),
                    seen,
                )[key].contains(requester)) by {
                law_requesters_are_those_who_declare(mods, seen, key, requester);
            }
            assert forall|key: Seq<char>, requester: RequesterModel| #[trigger]
                declares(mods, key, requester) && !seen.contains(key) implies new_deps@.contains_key(
                key,
            ) && new_deps@[key].contains(requester) by {
                law_requesters_are_those_who_declare(mods, seen, key, requester);
            }
        }
        new_deps
    }
}

/// What is said of a dependency that the mod site has nothing for: it was usually renamed, pulled,
/// or made private.
pub open spec fn missing_row(dep_id: Seq<char>, requesters: Seq<RequesterModel>) -> Seq<char> {
    dep_id + "\nNot found on the mod site. Needed by: "@ + joined(
        requesters.map_values(|r: RequesterModel| r.mod_id),
        ", "@,
    )
}

fn missing_text(dep_id: &str, requesters: &Vec<Requester>) -> (r: String)
    ensures
        r@ == missing_row(dep_id@, requesters.deep_view()),
{
    let mut ids: Vec<String> = Vec::new();
    let mut i: usize = 0;
    while i < requesters.len()
        invariant
            i <= requesters.len(),
            ids.len() == i,
            forall|j: int| 0 <= j < i ==> #[trigger] ids[j]@ == requesters.deep_view()[j].mod_id,
        decreases requesters.len() - i,
    {
        ids.push(requesters[i].mod_id.clone());
        i = i + 1;
    }
    assert(ids.deep_view() =~= requesters.deep_view().map_values(|r: RequesterModel| r.mod_id));
    let mut text = dep_id.to_owned();
    text.append("\nNot found on the mod site. Needed by: ");
    text.append(join(&ids, ", ").as_str());
    text
}

/// The walk after one new dependency, given what the mod site has under its id and the release
/// that was settled on. A dependency that was seen meanwhile is passed over, one that the site
/// does not have is noted, and one with a release enters the graph and the queue.
pub open spec fn after_dependency<R>(
    walk: WalkModel,
    dep_id: Seq<char>,
    requesters: Seq<RequesterModel>,
    found: Option<ApiModModel<R>>,
    release: Option<(Seq<char>, Seq<char>)>,
) -> WalkModel {
    if walk.graph.contains_key(lowercase(dep_id)) {
        walk
    } else {
        match (found, release) {
            (None, _) => WalkModel {
                unresolved: walk.unresolved.push(missing_row(dep_id, requesters)),
                ..walk
            },
            (Some(api_mod), Some((version, url))) => WalkModel {
                graph: walk.graph.insert(
                    lowercase(dep_id),
                    ResolvedDepModel {
                        mod_id: dep_id,
                        mod_name: api_mod.display_name(),
                        version_to_install: version,
                        download_url: url,
                        requesters,
                    },
                ),
                queue: walk.queue.push(fresh_install(dep_id, api_mod, version, url)),
                ..walk
            },
            (Some(_), None) => walk,
        }
    }
}

/// The walk after the dependencies `ids`, one after the other.
pub open spec fn after_dependencies<R>(
    walk: WalkModel,
    ids: Seq<Seq<char>>,
    requesters: Map<Seq<char>, Seq<RequesterModel>>,
    found: Map<Seq<char>, ApiModModel<R>>,
    releases: Seq<Option<(Seq<char>, Seq<char>)>>,
) -> WalkModel
    decreases ids.len(),
{
    if ids.len() == 0 {
        walk
    } else {
        after_dependency(
            after_dependencies(walk, ids.drop_last(), requesters, found, releases.drop_last()),
            ids.last(),
            requesters[ids.last()],
            lookup(found, ids.last()),
            releases.last(),
        )
    }
}

/// What the mods are resolved under.
pub struct Setting<'a> {
    pub packages: &'a Vec<Package>,
    pub pinned_game_version: &'a str,
    pub allow_unstable: bool,
}

/// Whether one new dependency may come to `release` and `notice` where the walk has come to
/// `walk`. What was seen meanwhile, or is not on the mod site, comes to neither.
pub open spec fn settles<K: Ord, R, O, N, V, C, P>(
    rules: VersionRules<O, N, V, C, P>,
    setting: Setting,
    walk: WalkModel,
    dep_id: Seq<char>,
    requesters: Seq<RequesterModel>,
    found: Option<ApiModModel<R>>,
    release: Option<(Seq<char>, Seq<char>)>,
    notice: Option<NoticeModel>,
) -> bool where
    O: Fn(&str) -> bool,
    N: Fn(&str) -> Option<(u64, u64, u64)>,
    V: Fn(&str) -> Option<K>,
    C: Fn(&str, &str) -> String,
    P: Fn(&R, &Package, &str, bool) -> Pick,
 {
    if walk.graph.contains_key(lowercase(dep_id)) || found is None {
        release is None && notice is None
    } else {
        dependency_resolves_to::<K, R, O, N, V, C, P>(
            rules,
            dep_id,
            requesters,
            found->0,
            setting.packages.deep_view(),
            setting.pinned_game_version@,
            setting.allow_unstable,
            release,
            notice,
        )
    }
}

/// The notices that there are, in their order.
pub open spec fn said(notices: Seq<Option<NoticeModel>>) -> Seq<NoticeModel>
    decreases notices.len(),
{
    if notices.len() == 0 {
        Seq::empty()
    } else {
        match notices.last() {
            Some(notice) => said(notices.drop_last()).push(notice),
            None => said(notices.drop_last()),
        }
    }
}

/// Whether the new dependencies `ids`, one after the other, may come to these releases and
/// notices.
pub open spec fn all_settle<K: Ord, R, O, N, V, C, P>(
    rules: VersionRules<O, N, V, C, P>,
    setting: Setting,
    walk: WalkModel,
    ids: Seq<Seq<char>>,
    requesters: Map<Seq<char>, Seq<RequesterModel>>,
    found: Map<Seq<char>, ApiModModel<R>>,
    releases: Seq<Option<(Seq<char>, Seq<char>)>>,
    notices: Seq<Option<NoticeModel>>,
) -> bool where
    O: Fn(&str) -> bool,
    N: Fn(&str) -> Option<(u64, u64, u64)>,
    V: Fn(&str) -> Option<K>,
    C: Fn(&str, &str) -> String,
    P: Fn(&R, &Package, &str, bool) -> Pick,
 {
    &&& releases.len() == ids.len()
    &&& notices.len() == ids.len()
    &&& forall|i: int|
        0 <= i < ids.len() ==> settles::<K, R, O, N, V, C, P>(
            rules,
            setting,
            after_dependencies(walk, ids.take(i), requesters, found, releases.take(i)),
            #[trigger] ids[i],
            requesters[ids[i]],
            lookup(found, ids[i]),
            releases[i],
            notices[i],
        )
}

proof fn lemma_settle_push<K: Ord, R, O, N, V, C, P>(
    rules: VersionRules<O, N, V, C, P>,
    setting: Setting,
    walk: WalkModel,
    ids: Seq<Seq<char>>,
    requesters: Map<Seq<char>, Seq<RequesterModel>>,
    found: Map<Seq<char>, ApiModModel<R>>,
    releases: Seq<Option<(Seq<char>, Seq<char>)>>,
    notices: Seq<Option<NoticeModel>>,
    id: Seq<char>,
    release: Option<(Seq<char>, Seq<char>)>,
    notice: Option<NoticeModel>,
) where
    O: Fn(&str) -> bool,
    N: Fn(&str) -> Option<(u64, u64, u64)>,
    V: Fn(&str) -> Option<K>,
    C: Fn(&str, &str) -> String,
    P: Fn(&R, &Package, &str, bool) -> Pick,

    requires
        all_settle::<K, R, O, N, V, C, P>(
            rules,
            setting,
            walk,
            ids,
            requesters,
            found,
            releases,
            notices,
        ),
        settles::<K, R, O, N, V, C, P>(
            rules,
            setting,
            after_dependencies(walk, ids, requesters, found, releases),
            id,
            requesters[id],
            lookup(found, id),
            release,
            notice,
        ),
    ensures
        all_settle::<K, R, O, N, V, C, P>(
            rules,
            setting,
            walk,
            ids.push(id),
            requesters,
            found,
            releases.push(release),
            notices.push(notice),
        ),
        after_dependencies(walk, ids.push(id), requesters, found, releases.push(release))
            == after_dependency(
            after_dependencies(walk, ids, requesters, found, releases),
            id,
            requesters[id],
            lookup(found, id),
            release,
        ),
{
    let more = ids.push(id);
    let more_releases = releases.push(release);
    assert(more.drop_last() =~= ids);
    assert(more_releases.drop_last() =~= releases);
    assert forall|i: int| 0 <= i < more.len() implies settles::<K, R, O, N, V, C, P>(
        rules,
        setting,
        after_dependencies(walk, more.take(i), requesters, found, more_releases.take(i)),
        #[trigger] more[i],
        requesters[more[i]],
        lookup(found, more[i]),
        more_releases[i],
        notices.push(notice)[i],
    ) by {
        assert(more.take(i) =~= ids.take(i));
        assert(more_releases.take(i) =~= releases.take(i));
        if i == ids.len() {
            assert(ids.take(i) =~= ids);
            assert(releases.take(i) =~= releases);
        } else {
            assert(more[i] == ids[i]);
        }
    }
}

impl DependencyWalk {
    fn absorb_one<K: Ord, R, O, N, V, C, P>(
        &mut self,
        dep_id: &String,
        requesters: &Vec<Requester>,
        found: Option<&ApiMod<R>>,
        setting: &Setting,
        rules: &VersionRules<O, N, V, C, P>,
    ) -> (r: (Ghost<Option<(Seq<char>, Seq<char>)>>, Option<Notice>)) where
        O: Fn(&str) -> bool,
        N: Fn(&str) -> Option<(u64, u64, u64)>,
        V: Fn(&str) -> Option<K>,
        C: Fn(&str, &str) -> String,
        P: Fn(&R, &Package, &str, bool) -> Pick,

        requires
            usable::<K, R, O, N, V, C, P>(*rules),
        ensures
            settles::<K, R, O, N, V, C, P>(
                *rules,
                *setting,
                old(self).deep_view(),
                dep_id@,
                requesters.deep_view(),
                found.deep_view(),
                r.0@,
                r.1.deep_view(),
            ),
            final(self).deep_view() == after_dependency(
                old(self).deep_view(),
                dep_id@,
                requesters.deep_view(),
                found.deep_view(),
                r.0@,
            ),
    {
        let ghost before = self.deep_view();
        let key = to_lowercase(dep_id.as_str());
        if self.graph.contains_key(key.as_str()) {
            return (Ghost(None), None);
        }
        match found {
            None => {
                self.unresolved.push(missing_text(dep_id.as_str(), requesters));
                assert(self.unresolved.deep_view() =~= before.unresolved.push(
                    missing_row(dep_id@, requesters.deep_view()),
                ));
                (Ghost(None), None)
            },
            Some(api_mod) => {
                let (release, notice) = resolve_dependency::<K, R, O, N, V, C, P>(
                    dep_id.as_str(),
                    requesters,
                    api_mod,
                    setting.packages,
                    setting.pinned_game_version,
                    setting.allow_unstable,
                    rules,
                );
                let ghost settled = release.deep_view();
                assert(found.deep_view() == Some(api_mod.deep_view()));
                if let Some((version, url)) = release {
                    let copy = requesters.clone();
                    assert(copy.deep_view() =~= requesters.deep_view());
                    let dep = ResolvedDep {
                        mod_id: dep_id.clone(),
                        mod_name: api_mod.display_name(),
                        version_to_install: version.clone(),
                        download_url: url.clone(),
                        requesters: copy,
                    };
                    let install = Install {
                        mod_id: dep_id.clone(),
                        mod_name: api_mod.display_name(),
                        version_to_install: version,
                        download_url: url,
                        current_file_path: None,
                    };
                    self.graph.insert(key, dep);
                    self.queue.push(install);
                    assert(self.queue.deep_view() =~= before.queue.push(install.deep_view()));
                }
                (Ghost(settled), notice)
            },
        }
    }

    /// Takes the new dependencies in, given what the mod site has under their ids. Hands back what
    /// there is to say about them.
    pub fn absorb<K: Ord, R, O, N, V, C, P>(
        &mut self,
        new_deps: &ModMap<Vec<Requester>>,
        api_results: &ModMap<ApiMod<R>>,
        setting: &Setting,
        rules: &VersionRules<O, N, V, C, P>,
    ) -> (r: Vec<Notice>) where
        O: Fn(&str) -> bool,
        N: Fn(&str) -> Option<(u64, u64, u64)>,
        V: Fn(&str) -> Option<K>,
        C: Fn(&str, &str) -> String,
        P: Fn(&R, &Package, &str, bool) -> Pick,

        requires
            usable::<K, R, O, N, V, C, P>(*rules),
        ensures
            exists|
                releases: Seq<Option<(Seq<char>, Seq<char>)>>,
                notices: Seq<Option<NoticeModel>>,
            |
                {
                    &&& #[trigger] all_settle::<K, R, O, N, V, C, P>(
                        *rules,
                        *setting,
                        old(self).deep_view(),
                        in_order(new_deps@.dom()),
                        new_deps@,
                        api_results@,
                        releases,
                        notices,
                    )
                    &&& final(self).deep_view() == after_dependencies(
                        old(self).deep_view(),
                        in_order(new_deps@.dom()),
                        new_deps@,
                        api_results@,
                        releases,
                    )
                    &&& r.deep_view() == said(notices)
                },
            old(self).deep_view().queue.is_prefix_of(final(self).deep_view().queue),
            forall|k: int|
                old(self).queue.len() <= k < final(self).queue.len() ==> is_taken_in::<
                    K,
                    R,
                    O,
                    N,
                    V,
                    C,
                    P,
                >(
                    *rules,
                    new_deps@,
                    api_results@,
                    setting.packages.deep_view(),
                    setting.pinned_game_version@,
                    setting.allow_unstable,
                    final(self).deep_view().graph,
                    #[trigger] final(self).deep_view().queue[k],
                ),
            forall|k: int|
                old(self).unresolved.len() <= k < final(self).unresolved.len() ==> tells_missing(
                    new_deps@,
                    api_results@,
                    #[trigger] final(self).deep_view().unresolved[k],
                ),
    {
        let ghost walk = self.deep_view();
        let ghost ids = in_order(new_deps@.dom());
        let ghost mut releases: Seq<Option<(Seq<char>, Seq<char>)>> = Seq::empty();
        let ghost mut notices: Seq<Option<NoticeModel>> = Seq::empty();
        let mut spoken: Vec<Notice> = Vec::new();
        let n = new_deps.len();
        let mut i: usize = 0;
        while i < n
            invariant
                i <= n,
                n == ids.len(),
                n == new_deps@.dom().len(),
                ids == in_order(new_deps@.dom()),
                lists_in_order(ids, new_deps@.dom()),
                usable::<K, R, O, N, V, C, P>(*rules),
                all_settle::<K, R, O, N, V, C, P>(
                    *rules,
                    *setting,
                    walk,
                    ids.take(i as int),
                    new_deps@,
                    api_results@,
                    releases,
                    notices,
                ),
                self.deep_view() == after_dependencies(
                    walk,
                    ids.take(i as int),
                    new_deps@,
                    api_results@,
                    releases,
                ),
                spoken.deep_view() == said(notices),
            decreases n - i,
        {
            let dep_id = new_deps.name_at(i);
            let requesters = new_deps.value_at(i);
            let found = api_results.get(dep_id.as_str());
            assert(found.deep_view() == lookup(api_results@, ids[i as int]));
            let ghost old_releases = releases;
            let ghost old_notices = notices;
            let (release, notice) = self.absorb_one::<K, R, O, N, V, C, P>(
                dep_id,
                requesters,
                found,
                setting,
                rules,
            );
            proof {
                lemma_settle_push::<K, R, O, N, V, C, P>(
                    *rules,
                    *setting,
                    walk,
                    ids.take(i as int),
                    new_deps@,
                    api_results@,
                    old_releases,
                    old_notices,
                    ids[i as int],
                    release@,
                    notice.deep_view(),
                );
                releases = old_releases.push(release@);
                notices = old_notices.push(notice.deep_view());
                assert(notices.drop_last() =~= old_notices);
                assert(ids.take(i + 1) =~= ids.take(i as int).push(ids[i as int]));
            }
            let ghost old_spoken = spoken.deep_view();
            if let Some(notice) = notice {
                spoken.push(notice);
                assert(spoken.deep_view() =~= old_spoken.push(notice.deep_view()));
            }
            i = i + 1;
        }
        proof {
            assert(ids.take(n as int) =~= ids);
            lemma_in_order(ids, new_deps@.dom());
            law_queued_dependencies_are_picked::<K, R, O, N, V, C, P>(
                *rules,
                *setting,
                walk,
                ids,
                new_deps@,
                api_results@,
                releases,
                notices,
            );
            law_no_mod_queued_twice(walk, ids, new_deps@, api_results@, releases);
        }
        spoken
    }
}

} // verus!
