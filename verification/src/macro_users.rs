//! Which workspaces an operation on macro servers reaches, and which servers it is about.
use crate::base::{client_view, LoadedView};
use crate::build_data::{
    asked_to, build_data_entries, macro_scope, projects_to, rebuild_keys_to, reload_keys_to, scope_keys,
    targets_to, unused_to, users_to, with_indexes_to, BuildDataScope, BuildDataSnapshot, BuildDataView,
    BuildDataWorkspace, ProjectView,
};
use crate::load::ProcMacroLoadState;
use crate::macros::{
    clients_to, first_missing, invalidated_to, is_current, pending_to, prepared_data, rejected_servers, with_build_data_to,
    with_macros_to, BuildOutcome, PreparedView,
};
use crate::ordered::{lemma_sorted_exists, sorted_keys};
use crate::spawn::{spawn_key, with_asked, SpawnConfigView};
use crate::spawn_key::SpawnKeyView;
use crate::world::WorldView;
use vstd::prelude::*;

verus! {

/// The workspace uses a server with one of the keys.
spec fn runs_on(lw: LoadedView, keys: Seq<SpawnKeyView>) -> bool {
    lw.client matches Some(Ok(client)) && keys.contains(client.key)
}

/// The workspace asks for a server with one of the keys.
spec fn asks_for(lw: LoadedView, config: SpawnConfigView, keys: Seq<SpawnKeyView>) -> bool {
    spawn_key(lw.facts, config) matches Some(Ok(key)) && keys.contains(key)
}

proof fn lemma_push_contains<A>(s: Seq<A>, a: A, x: A)
    ensures
        s.push(a).contains(x) <==> s.contains(x) || x == a,
{
    let t = s.push(a);
    if s.contains(x) {
        let i = s.index_of(x);
        assert(t[i] == x);
    }
    if x == a {
        assert(t[s.len() as int] == x);
    }
    if t.contains(x) {
        let i = t.index_of(x);
        if i < s.len() {
            assert(s[i] == x);
        }
    }
}

proof fn lemma_targets(indexes: Seq<usize>, ws: Seq<LoadedView>, config: SpawnConfigView, keys: Seq<SpawnKeyView>, n: int, i: usize)
    requires
        0 <= n <= ws.len() <= usize::MAX,
    ensures
        targets_to(indexes, ws, config, keys, n).contains(i) <==> indexes.contains(i) || i < n && (runs_on(ws[i as int], keys)
            || asks_for(ws[i as int], config, keys)),
    decreases n,
{
    if n > 0 && keys.len() > 0 {
        lemma_targets(indexes, ws, config, keys, n - 1, i);
        lemma_push_contains(targets_to(indexes, ws, config, keys, n - 1), (n - 1) as usize, i);
    }
}

/// A reload or a rebuild of macro servers reaches every workspace that shares one of them: an index is
/// gone through exactly when it was given or its workspace uses or asks for a server with one of the
/// keys, whatever else holds of the workspace.
pub proof fn law_macro_servers_are_refreshed_everywhere(
    indexes: Seq<usize>,
    ws: Seq<LoadedView>,
    config: SpawnConfigView,
    keys: Seq<SpawnKeyView>,
    i: usize,
)
    requires
        i < ws.len() <= usize::MAX,
    ensures
        targets_to(indexes, ws, config, keys, ws.len() as int).contains(i) <==> {
            ||| indexes.contains(i)
            ||| ws[i as int].client matches Some(Ok(client)) && keys.contains(client.key)
            ||| spawn_key(ws[i as int].facts, config) matches Some(Ok(key)) && keys.contains(key)
        },
{
    lemma_targets(indexes, ws, config, keys, ws.len() as int, i);
}

/// No workspace outside those that are gone through is left on a server that is started anew.
pub proof fn law_no_user_is_left_behind(
    indexes: Seq<usize>,
    ws: Seq<LoadedView>,
    config: SpawnConfigView,
    keys: Seq<SpawnKeyView>,
    i: usize,
)
    requires
        i < ws.len() <= usize::MAX,
        !targets_to(indexes, ws, config, keys, ws.len() as int).contains(i),
    ensures
        ws[i as int].client matches Some(Ok(client)) ==> !keys.contains(client.key),
        spawn_key(ws[i as int].facts, config) matches Some(Ok(key)) ==> !keys.contains(key),
{
    lemma_targets(indexes, ws, config, keys, ws.len() as int, i);
}

/// No workspace is gone through twice, where none was given twice.
pub proof fn law_targets_are_listed_once(
    indexes: Seq<usize>,
    ws: Seq<LoadedView>,
    config: SpawnConfigView,
    keys: Seq<SpawnKeyView>,
    n: int,
)
    requires
        0 <= n <= ws.len() <= usize::MAX,
        indexes.no_duplicates(),
    ensures
        targets_to(indexes, ws, config, keys, n).no_duplicates(),
    decreases n,
{
    if n > 0 && keys.len() > 0 {
        law_targets_are_listed_once(indexes, ws, config, keys, n - 1);
        lemma_targets(indexes, ws, config, keys, n - 1, (n - 1) as usize);
    }
}

proof fn lemma_users(ws: Seq<LoadedView>, config: Option<SpawnConfigView>, keys: Seq<SpawnKeyView>, n: int, i: usize)
    requires
        0 <= n <= ws.len() <= usize::MAX,
    ensures
        users_to(ws, config, keys, n).contains(i) <==> i < n && (runs_on(ws[i as int], keys) || (config matches Some(config)
            && asks_for(ws[i as int], config, keys))),
    decreases n,
{
    if n > 0 {
        lemma_users(ws, config, keys, n - 1, i);
        lemma_push_contains(users_to(ws, config, keys, n - 1), (n - 1) as usize, i);
    }
}

proof fn lemma_with_indexes(list: Seq<usize>, more: Seq<usize>, n: int, i: usize)
    requires
        0 <= n <= more.len(),
    ensures
        with_indexes_to(list, more, n).contains(i) <==> list.contains(i) || more.take(n).contains(i),
    decreases n,
{
    if n > 0 {
        lemma_with_indexes(list, more, n - 1, i);
        lemma_push_contains(with_indexes_to(list, more, n - 1), more[n - 1], i);
        assert(more.take(n) =~= more.take(n - 1).push(more[n - 1]));
        lemma_push_contains(more.take(n - 1), more[n - 1], i);
    } else {
        assert(more.take(0) =~= Seq::<usize>::empty());
    }
}

/// Macros are loaded for the given workspaces, and with keys also for every other that uses a server
/// with one of them or, by the configuration, asks for one.
pub proof fn law_macros_are_loaded_for_all_users(
    ws: Seq<LoadedView>,
    indexes: Seq<usize>,
    keys: Option<Seq<SpawnKeyView>>,
    config: Option<SpawnConfigView>,
    i: usize,
)
    requires
        i < ws.len() <= usize::MAX,
    ensures
        macro_scope(ws, indexes, keys, config).contains(i) <==> {
            ||| indexes.contains(i)
            ||| keys matches Some(keys) && ws[i as int].client matches Some(Ok(client)) && keys.contains(client.key)
            ||| keys matches Some(keys) && config matches Some(config) && spawn_key(ws[i as int].facts, config) matches Some(
                Ok(key),
            ) && keys.contains(key)
        },
{
    match keys {
        None => {},
        Some(keys) => {
            lemma_users(ws, config, keys, ws.len() as int, i);
            lemma_with_indexes(users_to(ws, config, keys, ws.len() as int), indexes, indexes.len() as int, i);
            assert(indexes.take(indexes.len() as int) =~= indexes);
        },
    }
}

proof fn lemma_with_asked(keys: Seq<SpawnKeyView>, asked: Option<Result<SpawnKeyView, Seq<char>>>, key: SpawnKeyView)
    ensures
        with_asked(keys, asked).contains(key) <==> keys.contains(key) || asked == Some(Ok::<SpawnKeyView, Seq<char>>(key)),
        keys.no_duplicates() ==> with_asked(keys, asked).no_duplicates(),
{
    match asked {
        Some(Ok(other)) => {
            lemma_push_contains(keys, other, key);
        },
        _ => {},
    }
}

proof fn lemma_with_key(keys: Seq<SpawnKeyView>, used: Option<SpawnKeyView>, key: SpawnKeyView)
    ensures
        ({
            let all = match used {
                Some(used) => crate::spawn::with_key(keys, used),
                None => keys,
            };
            &&& all.contains(key) <==> keys.contains(key) || used == Some(key)
            &&& keys.no_duplicates() ==> all.no_duplicates()
        }),
{
    match used {
        Some(used) => {
            lemma_push_contains(keys, used, key);
        },
        None => {},
    }
}

/// A rebuild is about the servers of the given workspaces: a key is among them exactly when one of the
/// workspaces uses its server, or asks for it, or the project that came in for it asks for it. None is
/// listed twice.
pub proof fn law_rebuild_is_about_all_servers_in_use(
    ws: Seq<LoadedView>,
    indexes: Seq<usize>,
    projects: Seq<ProjectView>,
    config: SpawnConfigView,
    n: int,
    key: SpawnKeyView,
)
    requires
        0 <= n <= indexes.len(),
        indexes.len() == projects.len(),
    ensures
        rebuild_keys_to(ws, indexes, projects, config, n).contains(key) <==> exists|p: int|
            0 <= p < n && {
                ||| ws[#[trigger] indexes[p] as int].client matches Some(Ok(client)) && client.key == key
                ||| spawn_key(ws[indexes[p] as int].facts, config) == Some(Ok::<SpawnKeyView, Seq<char>>(key))
                ||| spawn_key(projects[p].facts, config) == Some(Ok::<SpawnKeyView, Seq<char>>(key))
            },
        rebuild_keys_to(ws, indexes, projects, config, n).no_duplicates(),
    decreases n,
{
    let all = rebuild_keys_to(ws, indexes, projects, config, n);
    if n > 0 {
        law_rebuild_is_about_all_servers_in_use(ws, indexes, projects, config, n - 1, key);
        let before = rebuild_keys_to(ws, indexes, projects, config, n - 1);
        let lw = ws[indexes[n - 1] as int];
        let used = crate::build_data::client_key(lw);
        let first = match used {
            Some(used) => crate::spawn::with_key(before, used),
            None => before,
        };
        let second = with_asked(first, spawn_key(lw.facts, config));
        lemma_with_key(before, used, key);
        lemma_with_asked(first, spawn_key(lw.facts, config), key);
        lemma_with_asked(second, spawn_key(projects[n - 1].facts, config), key);
        if all.contains(key) {
            if before.contains(key) {
                let p = choose|p: int|
                    0 <= p < n - 1 && {
                        ||| ws[#[trigger] indexes[p] as int].client matches Some(Ok(client)) && client.key == key
                        ||| spawn_key(ws[indexes[p] as int].facts, config) == Some(Ok::<SpawnKeyView, Seq<char>>(key))
                        ||| spawn_key(projects[p].facts, config) == Some(Ok::<SpawnKeyView, Seq<char>>(key))
                    };
                assert(indexes[p] == indexes[p]);
            } else {
                assert(indexes[n - 1] == indexes[n - 1]);
            }
        }
    }
}

/// A reload is about the servers that the workspaces loaded under the load keys use or ask for. A load
/// key under which nothing is loaded adds none, and none is listed twice.
pub proof fn law_reload_is_about_servers_of_loaded_workspaces(
    w: WorldView,
    load_keys: Seq<Seq<char>>,
    config: SpawnConfigView,
    n: int,
    key: SpawnKeyView,
)
    requires
        0 <= n <= load_keys.len(),
    ensures
        reload_keys_to(w, load_keys, config, n).contains(key) <==> exists|p: int|
            0 <= p < n && w.workspace_indexes.contains_key(#[trigger] load_keys[p]) && {
                let lw = w.base.workspaces[w.workspace_indexes[load_keys[p]] as int];
                ||| lw.client matches Some(Ok(client)) && client.key == key
                ||| spawn_key(lw.facts, config) == Some(Ok::<SpawnKeyView, Seq<char>>(key))
            },
        reload_keys_to(w, load_keys, config, n).no_duplicates(),
    decreases n,
{
    let all = reload_keys_to(w, load_keys, config, n);
    if n > 0 {
        law_reload_is_about_servers_of_loaded_workspaces(w, load_keys, config, n - 1, key);
        let before = reload_keys_to(w, load_keys, config, n - 1);
        if w.workspace_indexes.contains_key(load_keys[n - 1]) {
            let lw = w.base.workspaces[w.workspace_indexes[load_keys[n - 1]] as int];
            let used = crate::build_data::client_key(lw);
            let first = match used {
                Some(used) => crate::spawn::with_key(before, used),
                None => before,
            };
            lemma_with_key(before, used, key);
            lemma_with_asked(first, spawn_key(lw.facts, config), key);
        }
        if all.contains(key) {
            if before.contains(key) {
                let p = choose|p: int|
                    0 <= p < n - 1 && w.workspace_indexes.contains_key(#[trigger] load_keys[p]) && {
                        let lw = w.base.workspaces[w.workspace_indexes[load_keys[p]] as int];
                        ||| lw.client matches Some(Ok(client)) && client.key == key
                        ||| spawn_key(lw.facts, config) == Some(Ok::<SpawnKeyView, Seq<char>>(key))
                    };
                assert(w.workspace_indexes.contains_key(load_keys[p]));
            } else {
                assert(w.workspace_indexes.contains_key(load_keys[n - 1]));
            }
        }
    }
}

/// The project that came in for a workspace is the last that was given with its index.
pub proof fn law_last_project_of_an_index_counts(indexes: Seq<usize>, projects: Seq<ProjectView>, n: int, p: int)
    requires
        0 <= p < n <= indexes.len(),
        indexes.len() == projects.len(),
        forall|q: int| p < q < n ==> #[trigger] indexes[q] != indexes[p],
    ensures
        projects_to(indexes, projects, n).contains_key(indexes[p] as u64),
        projects_to(indexes, projects, n)[indexes[p] as u64] == projects[p],
    decreases n,
{
    if p < n - 1 {
        law_last_project_of_an_index_counts(indexes, projects, n - 1, p);
        assert(indexes[n - 1] != indexes[p]);
        assert(indexes[n - 1] as u64 != indexes[p] as u64);
    }
}

proof fn lemma_projects(indexes: Seq<usize>, projects: Seq<ProjectView>, n: int, key: u64)
    requires
        0 <= n <= indexes.len(),
        indexes.len() == projects.len(),
    ensures
        projects_to(indexes, projects, n).dom().finite(),
        projects_to(indexes, projects, n).contains_key(key) ==> exists|p: int|
            0 <= p < n && #[trigger] indexes[p] == key && projects[p] == projects_to(indexes, projects, n)[key],
        (exists|p: int| 0 <= p < n && #[trigger] indexes[p] == key) ==> projects_to(indexes, projects, n).contains_key(key),
    decreases n,
{
    if n > 0 {
        lemma_projects(indexes, projects, n - 1, key);
        let before = projects_to(indexes, projects, n - 1);
        if indexes[n - 1] as u64 == key {
            assert(indexes[n - 1] == key);
        } else if before.contains_key(key) {
            let p = choose|p: int| 0 <= p < n - 1 && #[trigger] indexes[p] == key && projects[p] == before[key];
            assert(indexes[p] == key);
        }
    }
}

proof fn lemma_asked(keys: Seq<SpawnKeyView>, projects: Map<u64, ProjectView>, config: SpawnConfigView, n: int, key: SpawnKeyView)
    requires
        projects.dom().finite(),
        0 <= n <= sorted_keys::<u64>(projects.dom()).len(),
    ensures
        asked_to(keys, projects, config, n).contains(key) <==> keys.contains(key) || exists|k: int|
            0 <= k < n && spawn_key(projects[#[trigger] sorted_keys::<u64>(projects.dom())[k]].facts, config) == Some(
                Ok::<SpawnKeyView, Seq<char>>(key),
            ),
    decreases n,
{
    let order = sorted_keys::<u64>(projects.dom());
    if n > 0 {
        lemma_asked(keys, projects, config, n - 1, key);
        let before = asked_to(keys, projects, config, n - 1);
        lemma_with_asked(before, spawn_key(projects[order[n - 1]].facts, config), key);
        if asked_to(keys, projects, config, n).contains(key) && !keys.contains(key) {
            if before.contains(key) {
                let k = choose|k: int|
                    0 <= k < n - 1 && spawn_key(projects[#[trigger] order[k]].facts, config) == Some(
                        Ok::<SpawnKeyView, Seq<char>>(key),
                    );
                assert(spawn_key(projects[order[k]].facts, config) == Some(Ok::<SpawnKeyView, Seq<char>>(key)));
            } else {
                assert(spawn_key(projects[order[n - 1]].facts, config) == Some(Ok::<SpawnKeyView, Seq<char>>(key)));
            }
        }
    }
}

/// A reload is about the servers that it names, and those that the projects that came in ask for.
pub proof fn law_reload_is_about_new_servers_too(
    keys: Seq<SpawnKeyView>,
    indexes: Seq<usize>,
    projects: Seq<ProjectView>,
    config: SpawnConfigView,
    key: SpawnKeyView,
)
    requires
        indexes.len() == projects.len(),
        indexes.no_duplicates(),
    ensures
        ({
            let updated = projects_to(indexes, projects, indexes.len() as int);
            asked_to(keys, updated, config, sorted_keys::<u64>(updated.dom()).len() as int).contains(key) <==> keys.contains(key)
                || exists|p: int|
                0 <= p < projects.len() && spawn_key((#[trigger] projects[p]).facts, config) == Some(
                    Ok::<SpawnKeyView, Seq<char>>(key),
                )
        }),
{
    let n = indexes.len() as int;
    let updated = projects_to(indexes, projects, n);
    lemma_projects(indexes, projects, n, 0);
    let order = sorted_keys::<u64>(updated.dom());
    lemma_sorted_exists::<u64>(updated.dom());
    lemma_asked(keys, updated, config, order.len() as int, key);
    let all = asked_to(keys, updated, config, order.len() as int);
    if all.contains(key) && !keys.contains(key) {
        let k = choose|k: int|
            0 <= k < order.len() && spawn_key(updated[#[trigger] order[k]].facts, config) == Some(Ok::<SpawnKeyView, Seq<char>>(key));
        assert(order.to_set().contains(order[k]));
        lemma_projects(indexes, projects, n, order[k]);
        let p = choose|p: int| 0 <= p < n && #[trigger] indexes[p] == order[k] && projects[p] == updated[order[k]];
        assert(projects[p] == updated[order[k]]);
    }
    if exists|p: int|
        0 <= p < projects.len() && spawn_key((#[trigger] projects[p]).facts, config) == Some(Ok::<SpawnKeyView, Seq<char>>(key)) {
        let p = choose|p: int|
            0 <= p < projects.len() && spawn_key((#[trigger] projects[p]).facts, config) == Some(
                Ok::<SpawnKeyView, Seq<char>>(key),
            );
        law_last_project_of_an_index_counts(indexes, projects, n, p);
        assert(order.to_set().contains(indexes[p] as u64));
        let k = order.index_of(indexes[p] as u64);
        assert(spawn_key(updated[order[k]].facts, config) == Some(Ok::<SpawnKeyView, Seq<char>>(key)));
    }
}

proof fn lemma_unused(updated: Map<u64, ProjectView>, indexes: Seq<usize>, n: int, key: u64)
    requires
        0 <= n <= indexes.len(),
        forall|j: int| 0 <= j < n ==> (#[trigger] indexes[j]) as u64 != key,
    ensures
        unused_to(updated, indexes, n).contains_key(key) == updated.contains_key(key),
        updated.contains_key(key) ==> unused_to(updated, indexes, n)[key] == updated[key],
    decreases n,
{
    if n > 0 {
        lemma_unused(updated, indexes, n - 1, key);
        assert(indexes[n - 1] as u64 != key);
    }
}

/// A workspace that build data is worked out for comes with the project that was given for it, whose
/// build data is then loaded, and where none was given with its own project and what is loaded of it.
/// Its files and its server are its own.
pub proof fn law_given_projects_are_taken_over(
    ws: Seq<LoadedView>,
    given: Seq<usize>,
    projects: Seq<ProjectView>,
    targets: Seq<usize>,
    i: int,
)
    requires
        given.len() == projects.len(),
        given.no_duplicates(),
        targets.no_duplicates(),
        0 <= i < targets.len(),
    ensures
        ({
            let entry = build_data_entries(ws, projects_to(given, projects, given.len() as int), targets)[i];
            let own = ws[targets[i] as int];
            &&& entry.index == targets[i]
            &&& forall|p: int|
                0 <= p < given.len() && #[trigger] given[p] == targets[i] ==> entry.project == projects[p].project && entry.facts
                    == projects[p].facts && entry.build_data_loaded
            &&& !given.contains(targets[i]) ==> entry.project == own.project && entry.facts == own.facts
                && entry.build_data_loaded == own.build_data_loaded
            &&& entry.files == own.files && entry.files_version == own.files_version && entry.client == own.client
        }),
{
    let updated = projects_to(given, projects, given.len() as int);
    let key = targets[i] as u64;
    assert forall|j: int| 0 <= j < i implies (#[trigger] targets[j]) as u64 != key by {
        assert(targets[j] != targets[i]);
    }
    lemma_unused(updated, targets, i, key);
    lemma_projects(given, projects, given.len() as int, key);
    assert forall|p: int| 0 <= p < given.len() && #[trigger] given[p] == targets[i] implies updated.contains_key(key)
        && updated[key] == projects[p] by {
        law_last_project_of_an_index_counts(given, projects, given.len() as int, p);
    }
    if updated.contains_key(key) {
        let p = choose|p: int| 0 <= p < given.len() && #[trigger] given[p] == key && projects[p] == updated[key];
        assert(given[p] == targets[i]);
    }
}

/// A rebuild gives every workspace the server that was started for it, and else a server is started
/// only for a workspace that has none: one that has a server, or an error in its place, keeps it. The
/// macros count as loaded unless they are still to be built and there are some.
pub proof fn law_rebuild_replaces_servers(v: BuildDataView, rebuild: bool, outcome: BuildOutcome, state: ProcMacroLoadState)
    ensures
        ({
            let p = prepared_data(v, rebuild, outcome, state);
            &&& rebuild || v.client is None ==> p.client == client_view(outcome.spawned)
            &&& !rebuild && v.client is Some ==> p.client == v.client
            &&& !p.proc_macros_loaded <==> state is NotYetBuilt && outcome.has_proc_macro_paths
            &&& p.index == v.index && p.project == v.project && p.facts == v.facts && p.files_version == v.files_version
            &&& p.build_data_loaded == v.build_data_loaded && p.proc_macros == outcome.proc_macros
            &&& p.parents == outcome.source_root_parent_map@
        }),
{
}

proof fn lemma_clients(list: Seq<BuildDataWorkspace>, n: int, server: u64)
    requires
        0 <= n <= list.len(),
    ensures
        clients_to(list, n).contains(server) <==> exists|i: int|
            0 <= i < n && ((#[trigger] list[i]).proc_macro_client matches Some(Ok(client)) && client.client == server),
    decreases n,
{
    if n > 0 {
        lemma_clients(list, n - 1, server);
        match list[n - 1].proc_macro_client {
            Some(Ok(client)) => {
                lemma_push_contains(clients_to(list, n - 1), client.client, server);
            },
            _ => {},
        }
        if clients_to(list, n).contains(server) {
            if clients_to(list, n - 1).contains(server) {
                let i = choose|i: int|
                    0 <= i < n - 1 && ((#[trigger] list[i]).proc_macro_client matches Some(Ok(client)) && client.client
                        == server);
                assert(list[i].proc_macro_client is Some);
            } else {
                assert(list[n - 1].proc_macro_client is Some);
            }
        }
    }
}

/// A server may not be used again exactly when macros are rebuilt and one of the workspaces runs on it.
pub proof fn law_rebuild_turns_away_old_servers(snapshot: BuildDataSnapshot, server: u64)
    ensures
        rejected_servers(snapshot).contains(server) <==> (snapshot.operation_keys matches Some((rebuild, _)) && rebuild)
            && exists|i: int|
            0 <= i < snapshot.workspaces@.len() && ((#[trigger] snapshot.workspaces@[i]).proc_macro_client matches Some(
                Ok(client),
            ) && client.client == server),
{
    lemma_clients(snapshot.workspaces@, snapshot.workspaces@.len() as int, server);
}

/// Build data is taken over exactly when the world is still the one that it was worked out for: no
/// workspace was loaded, and the files of every workspace concerned are at the version they were at.
pub proof fn law_outdated_build_data_is_turned_away(w: WorldView, generation: u64, list: Seq<PreparedView>)
    ensures
        !is_current(w, generation, list) <==> w.workspace_generation != generation || exists|i: int|
            0 <= i < list.len() && w.base.workspaces[(#[trigger] list[i]).index as int].files_version != list[i].files_version,
{
}

/// Build data reaches the workspace that it is for and no other. A workspace that it is for has the new
/// project, macros and server, and says that it has a server exactly when one is running; its files
/// and source roots are not touched.
pub proof fn law_build_data_reaches_its_workspace(ws: Seq<LoadedView>, list: Seq<PreparedView>, n: int, i: int)
    requires
        0 <= n <= list.len(),
        forall|p: int| 0 <= p < list.len() ==> (#[trigger] list[p]).index < ws.len(),
        forall|p: int, q: int| 0 <= p < q < list.len() ==> (#[trigger] list[p]).index != (#[trigger] list[q]).index,
        0 <= i < ws.len(),
    ensures
        with_build_data_to(ws, list, n).len() == ws.len(),
        ({
            let now = with_build_data_to(ws, list, n)[i];
            &&& (forall|p: int| 0 <= p < n ==> (#[trigger] list[p]).index != i) ==> now == ws[i]
            &&& forall|p: int|
                0 <= p < n && (#[trigger] list[p]).index == i ==> {
                    &&& now.project == list[p].project && now.facts == list[p].facts && now.parents == list[p].parents
                    &&& now.has_proc_macro_paths == list[p].has_proc_macro_paths && now.proc_macros == list[p].proc_macros
                    &&& now.proc_macros_loaded == list[p].proc_macros_loaded && now.build_data_loaded
                        == list[p].build_data_loaded
                    &&& now.client == list[p].client
                    &&& now.summary.proc_macro_server == (list[p].client matches Some(Ok(_)))
                }
            &&& now.files == ws[i].files && now.files_version == ws[i].files_version && now.source_roots == ws[i].source_roots
        }),
    decreases n,
{
    if n > 0 {
        law_build_data_reaches_its_workspace(ws, list, n - 1, i);
        let at = list[n - 1].index as int;
        law_build_data_reaches_its_workspace(ws, list, n - 1, at);
        assert(list[n - 1].index < ws.len());
    }
}

/// Macros that were loaded reach the workspaces that they are for, which then have them, and nothing
/// else changes. Of two lists for one workspace the later counts.
pub proof fn law_loaded_macros_reach_their_workspaces(ws: Seq<LoadedView>, list: Seq<(usize, u64)>, n: int, i: int)
    requires
        0 <= n <= list.len(),
        forall|p: int| 0 <= p < n ==> (#[trigger] list[p]).0 < ws.len(),
        0 <= i < ws.len(),
    ensures
        with_macros_to(ws, list, n).len() == ws.len(),
        ({
            let now = with_macros_to(ws, list, n)[i];
            &&& (forall|p: int| 0 <= p < n ==> (#[trigger] list[p]).0 != i) ==> now == ws[i]
            &&& forall|p: int|
                0 <= p < n && (#[trigger] list[p]).0 == i && (forall|q: int| p < q < n ==> (#[trigger] list[q]).0 != i) ==> now == (
                LoadedView { proc_macros: list[p].1, proc_macros_loaded: true, ..ws[i] })
        }),
    decreases n,
{
    if n > 0 {
        assert(list[n - 1].0 < ws.len());
        law_loaded_macros_reach_their_workspaces(ws, list, n - 1, i);
        let before = with_macros_to(ws, list, n - 1)[i];
        assert(before == (LoadedView { proc_macros: before.proc_macros, proc_macros_loaded: before.proc_macros_loaded, ..ws[i] }))
            by {
            lemma_macros_change_nothing_else(ws, list, n - 1, i);
        }
    }
}

proof fn lemma_macros_change_nothing_else(ws: Seq<LoadedView>, list: Seq<(usize, u64)>, n: int, i: int)
    requires
        0 <= n <= list.len(),
        forall|p: int| 0 <= p < n ==> (#[trigger] list[p]).0 < ws.len(),
        0 <= i < ws.len(),
    ensures
        with_macros_to(ws, list, n).len() == ws.len(),
        with_macros_to(ws, list, n)[i] == (LoadedView {
            proc_macros: with_macros_to(ws, list, n)[i].proc_macros,
            proc_macros_loaded: with_macros_to(ws, list, n)[i].proc_macros_loaded,
            ..ws[i]
        }),
    decreases n,
{
    if n > 0 {
        assert(list[n - 1].0 < ws.len());
        lemma_macros_change_nothing_else(ws, list, n - 1, i);
    }
}

/// Macros are taken over up to the first entry for which there is no workspace.
pub proof fn law_macros_stop_at_the_first_gap(len: nat, list: Seq<(usize, u64)>)
    ensures
        0 <= first_missing(len, list) <= list.len(),
        forall|p: int| 0 <= p < first_missing(len, list) ==> (#[trigger] list[p]).0 < len,
        first_missing(len, list) < list.len() ==> list[first_missing(len, list)].0 >= len,
    decreases list.len(),
{
    if list.len() > 0 {
        let rest = list.drop_last();
        law_macros_stop_at_the_first_gap(len, rest);
        assert forall|p: int| 0 <= p < first_missing(len, list) implies (#[trigger] list[p]).0 < len by {
            if p < rest.len() {
                assert(rest[p] == list[p]);
            }
        }
    }
}

/// When workspaces are reloaded, every other that uses or asks for one of their servers loses its server
/// and its macros, which have to be loaded anew where they are still to be built. The reloaded ones and
/// those without a share in the servers stay as they are, and of the others only the server and the
/// macros change.
pub proof fn law_sharers_lose_their_macros(
    ws: Seq<LoadedView>,
    indexes: Seq<usize>,
    keys: Seq<SpawnKeyView>,
    config: SpawnConfigView,
    macros: Seq<u64>,
    state: ProcMacroLoadState,
    i: int,
)
    requires
        0 <= i < ws.len() <= usize::MAX,
    ensures
        ({
            let now = invalidated_to(ws, indexes, keys, config, macros, state, ws.len() as int)[i];
            let shares = (ws[i].client matches Some(Ok(client)) && keys.contains(client.key)) || (spawn_key(
                ws[i].facts,
                config,
            ) matches Some(Ok(key)) && keys.contains(key));
            &&& indexes.contains(i as usize) || !shares ==> now == ws[i]
            &&& !indexes.contains(i as usize) && shares ==> {
                &&& now.client is None && !now.summary.proc_macro_server
                &&& now.proc_macros == macros[i]
                &&& !now.proc_macros_loaded <==> state is NotYetBuilt && ws[i].has_proc_macro_paths
                &&& now.files == ws[i].files && now.project == ws[i].project && now.facts == ws[i].facts
                &&& now.source_roots == ws[i].source_roots && now.build_data_loaded == ws[i].build_data_loaded
                &&& now.parents == ws[i].parents && now.files_version == ws[i].files_version
            }
        }),
{
}

/// Macros are asked for exactly for those workspaces gone through that have their build data and not yet
/// their macros.
pub proof fn law_pending_macros_are_asked_for(ws: Seq<LoadedView>, order: Seq<usize>, n: int, i: usize)
    requires
        0 <= n <= order.len(),
        i < ws.len(),
    ensures
        pending_to(ws, order, n).contains(i) <==> order.take(n).contains(i) && ws[i as int].build_data_loaded
            && !ws[i as int].proc_macros_loaded,
    decreases n,
{
    if n > 0 {
        law_pending_macros_are_asked_for(ws, order, n - 1, i);
        lemma_push_contains(pending_to(ws, order, n - 1), order[n - 1], i);
        assert(order.take(n) =~= order.take(n - 1).push(order[n - 1]));
        lemma_push_contains(order.take(n - 1), order[n - 1], i);
    } else {
        assert(order.take(0) =~= Seq::<usize>::empty());
    }
}

/// Build data that no reload or rebuild asked for is about no server besides. For a reload it is about
/// the servers of the reload and those that the projects that came in ask for; for a rebuild about
/// those that the workspaces use, ask for, or ask for as they came in.
pub proof fn law_build_data_is_about_its_servers(
    w: WorldView,
    indexes: Seq<usize>,
    projects: Seq<ProjectView>,
    config: SpawnConfigView,
    scope: BuildDataScope,
    key: SpawnKeyView,
)
    requires
        indexes.len() == projects.len(),
        indexes.no_duplicates(),
    ensures
        scope_keys(w, indexes, projects, config, scope).contains(key) <==> match scope {
            BuildDataScope::Normal => false,
            BuildDataScope::Reload(keys) => keys.deep_view().contains(key) || exists|p: int|
                0 <= p < projects.len() && spawn_key((#[trigger] projects[p]).facts, config) == Some(
                    Ok::<SpawnKeyView, Seq<char>>(key),
                ),
            BuildDataScope::Rebuild => exists|p: int|
                0 <= p < indexes.len() && {
                    ||| w.base.workspaces[#[trigger] indexes[p] as int].client matches Some(Ok(client)) && client.key == key
                    ||| spawn_key(w.base.workspaces[indexes[p] as int].facts, config) == Some(Ok::<SpawnKeyView, Seq<char>>(key))
                    ||| spawn_key(projects[p].facts, config) == Some(Ok::<SpawnKeyView, Seq<char>>(key))
                },
        },
{
    match scope {
        BuildDataScope::Normal => {},
        BuildDataScope::Reload(keys) => {
            law_reload_is_about_new_servers_too(keys.deep_view(), indexes, projects, config, key);
        },
        BuildDataScope::Rebuild => {
            law_rebuild_is_about_all_servers_in_use(w.base.workspaces, indexes, projects, config, indexes.len() as int, key);
        },
    }
}

} // verus!
