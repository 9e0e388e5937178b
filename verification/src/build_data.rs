//! Build data and macros of the workspaces in a world.
use crate::base::{
    client_view, contains_index, duplicate_client, ClientView, FactsView, LoadedView, LoadedWorkspace,
    ProcMacroFacts, SharedProcMacroClient,
};
use crate::files::LoadedWorkspaceFiles;
use crate::macro_users::law_macro_servers_are_refreshed_everywhere;
use crate::ordered::{lemma_sorted_keys, listed, sorted_keys, OrderedMap};
use crate::shared::share;
use crate::spawn::{
    contains_key, proc_macro_spawn_key, push_asked, push_key, spawn_key, with_asked, with_key, SpawnConfig,
    SpawnConfigView,
};
use crate::spawn_key::{ProcMacroSpawnKey, SpawnKeyView};
use crate::tokens::Tokens;
use crate::view::copy_indexes;
use crate::world::{SharedWorld, WorldView};
use std::sync::Arc;
use vstd::prelude::*;

verus! {

/// The key of the server that a workspace uses, if it uses one.
pub open spec fn client_key(lw: LoadedView) -> Option<SpawnKeyView> {
    match lw.client {
        Some(Ok(client)) => Some(client.key),
        _ => None,
    }
}

/// The workspace uses or asks for a server with one of the keys.
pub open spec fn uses_one_of(lw: LoadedView, config: Option<SpawnConfigView>, keys: Seq<SpawnKeyView>) -> bool {
    ||| client_key(lw) matches Some(key) && keys.contains(key)
    ||| config matches Some(config) && spawn_key(lw.facts, config) matches Some(Ok(key)) && keys.contains(key)
}

/// The keys that the workspaces loaded under the first `n` load keys use or ask for.
pub open spec fn reload_keys_to(w: WorldView, load_keys: Seq<Seq<char>>, config: SpawnConfigView, n: int) -> Seq<SpawnKeyView>
    decreases n,
{
    if n <= 0 {
        Seq::empty()
    } else {
        let before = reload_keys_to(w, load_keys, config, n - 1);
        if w.workspace_indexes.contains_key(load_keys[n - 1]) {
            let lw = w.base.workspaces[w.workspace_indexes[load_keys[n - 1]] as int];
            with_asked(
                match client_key(lw) {
                    Some(key) => with_key(before, key),
                    None => before,
                },
                spawn_key(lw.facts, config),
            )
        } else {
            before
        }
    }
}

pub fn uses(workspace: &LoadedWorkspace, config: Option<&SpawnConfig>, keys: &Vec<ProcMacroSpawnKey>) -> (r: bool)
    ensures
        r == uses_one_of(workspace@, config_view(config), keys.deep_view()),
{
    let by_client = match &workspace.proc_macro_client {
        Some(Ok(client)) => contains_key(keys, &client.key),
        _ => false,
    };
    if by_client {
        return true;
    }
    match config {
        Some(config) => {
            match proc_macro_spawn_key(&workspace.facts, config) {
                Some(Ok(key)) => contains_key(keys, &key),
                _ => false,
            }
        },
        None => false,
    }
}

fn push_client_key(keys: &mut Vec<ProcMacroSpawnKey>, workspace: &LoadedWorkspace)
    ensures
        final(keys).deep_view() == (match client_key(workspace@) {
            Some(key) => with_key(old(keys).deep_view(), key),
            None => old(keys).deep_view(),
        }),
{
    match &workspace.proc_macro_client {
        Some(Ok(client)) => {
            push_key(keys, client.key.duplicate());
        },
        _ => {},
    }
}

/// The indexes below `n` of workspaces that use or ask for one of the keys.
pub open spec fn users_to(ws: Seq<LoadedView>, config: Option<SpawnConfigView>, keys: Seq<SpawnKeyView>, n: int) -> Seq<usize>
    decreases n,
{
    if n <= 0 {
        Seq::empty()
    } else if uses_one_of(ws[n - 1], config, keys) {
        users_to(ws, config, keys, n - 1).push((n - 1) as usize)
    } else {
        users_to(ws, config, keys, n - 1)
    }
}

/// The list with the first `n` of other indexes, those that it lacks.
pub open spec fn with_indexes_to(list: Seq<usize>, more: Seq<usize>, n: int) -> Seq<usize>
    decreases n,
{
    if n <= 0 {
        list
    } else {
        let before = with_indexes_to(list, more, n - 1);
        if before.contains(more[n - 1]) {
            before
        } else {
            before.push(more[n - 1])
        }
    }
}

pub open spec fn ascending_indexes(list: Seq<usize>) -> bool {
    forall|i: int, j: int| 0 <= i < j < list.len() ==> list[i] <= list[j]
}

/// Sorts indexes.
pub fn sort_indexes(list: Vec<usize>) -> (r: Vec<usize>)
    ensures
        ascending_indexes(r@),
        r@.to_multiset() == list@.to_multiset(),
{
    let mut list = list;
    let ghost start = list@;
    let n = list.len();
    let mut i: usize = 0;
    while i < n
        invariant
            i <= n,
            n == list.len(),
            list@.to_multiset() == start.to_multiset(),
            ascending_indexes(list@.take(i as int)),
            forall|a: int, b: int| 0 <= a < i <= b < n ==> list@[a] <= list@[b],
        decreases n - i,
    {
        let mut least: usize = i;
        let mut k: usize = i + 1;
        while k < n
            invariant
                i < k <= n,
                n == list.len(),
                i <= least < k,
                forall|b: int| i <= b < k ==> list@[least as int] <= list@[b],
            decreases n - k,
        {
            if list[k] < list[least] {
                least = k;
            }
            k = k + 1;
        }
        let ghost before = list@;
        let a: usize = list[i];
        let b: usize = list[least];
        list.set(i, b);
        list.set(least, a);
        proof {
            lemma_swap(before, i as int, least as int);
            assert(list@ =~= before.update(i as int, b).update(least as int, a));
            let (was, now) = (before.take(i as int), list@.take(i + 1));
            assert forall|x: int, y: int| 0 <= x < y < now.len() implies #[trigger] now[x] <= #[trigger] now[y] by {
                if y < i {
                    assert(was[x] == now[x] && was[y] == now[y]);
                } else {
                    assert(before[x] <= before[least as int]);
                }
            }
        }
        i = i + 1;
    }
    proof {
        assert(list@.take(n as int) =~= list@);
    }
    list
}

proof fn lemma_swap(s: Seq<usize>, i: int, j: int)
    requires
        0 <= i <= j < s.len(),
    ensures
        s.update(i, s[j]).update(j, s[i]).to_multiset() == s.to_multiset(),
{
    vstd::seq_lib::to_multiset_update(s, i, s[j]);
    let t = s.update(i, s[j]);
    vstd::seq_lib::to_multiset_update(t, j, s[i]);
    s.to_multiset_ensures();
    assert(s.to_multiset().count(s[i]) > 0);
    assert(t.update(j, s[i]).to_multiset() =~= s.to_multiset()) by {
        t.to_multiset_ensures();
        if i == j {
            assert(t =~= s);
        }
    }
}

/// The order in which the workspaces that an operation on macros is about are gone through: without
/// keys as they are given, and with keys ascending, the given ones and all that use or ask for one.
pub open spec fn is_order(
    order: Seq<usize>,
    ws: Seq<LoadedView>,
    indexes: Seq<usize>,
    keys: Option<Seq<SpawnKeyView>>,
    config: Option<SpawnConfigView>,
) -> bool {
    match keys {
        None => order == indexes,
        Some(keys) => {
            &&& ascending_indexes(order)
            &&& order.to_multiset() == with_indexes_to(
                users_to(ws, config, keys, ws.len() as int),
                indexes,
                indexes.len() as int,
            ).to_multiset()
        },
    }
}

/// The workspaces that an operation on macros is about.
pub open spec fn macro_scope(
    ws: Seq<LoadedView>,
    indexes: Seq<usize>,
    keys: Option<Seq<SpawnKeyView>>,
    config: Option<SpawnConfigView>,
) -> Seq<usize> {
    match keys {
        None => indexes,
        Some(keys) => with_indexes_to(users_to(ws, config, keys, ws.len() as int), indexes, indexes.len() as int),
    }
}

pub proof fn lemma_order_is_scope(
    order: Seq<usize>,
    ws: Seq<LoadedView>,
    indexes: Seq<usize>,
    keys: Option<Seq<SpawnKeyView>>,
    config: Option<SpawnConfigView>,
    index: usize,
)
    requires
        is_order(order, ws, indexes, keys, config),
    ensures
        order.contains(index) == macro_scope(ws, indexes, keys, config).contains(index),
{
    let scope = macro_scope(ws, indexes, keys, config);
    order.to_multiset_ensures();
    scope.to_multiset_ensures();
    assert(order.to_multiset() == scope.to_multiset());
    assert(order.contains(index) <==> order.to_multiset().count(index) > 0);
    assert(scope.contains(index) <==> scope.to_multiset().count(index) > 0);
}

pub open spec fn config_view(config: Option<&SpawnConfig>) -> Option<SpawnConfigView> {
    match config {
        Some(config) => Some(config@),
        None => None,
    }
}

pub open spec fn keys_view(keys: Option<&Vec<ProcMacroSpawnKey>>) -> Option<Seq<SpawnKeyView>> {
    match keys {
        Some(keys) => Some(keys.deep_view()),
        None => None,
    }
}

impl SharedWorld {
    /// The keys of the servers that the workspaces loaded under some keys use or ask for.
    pub fn proc_macro_reload_keys(&self, load_keys: &Vec<String>, config: &SpawnConfig) -> (r: Vec<ProcMacroSpawnKey>)
        requires
            forall|k: Seq<char>|
                #[trigger] self@.workspace_indexes.contains_key(k) ==> self@.workspace_indexes[k] < self@.base.workspaces.len(),
        ensures
            r.deep_view() == reload_keys_to(self@, load_keys.deep_view(), config@, load_keys@.len() as int),
    {
        let ghost w = self@;
        let ghost all = load_keys.deep_view();
        let mut r: Vec<ProcMacroSpawnKey> = Vec::new();
        let mut i: usize = 0;
        proof {
            assert(r.deep_view() =~= Seq::empty());
            assert(all.len() == load_keys@.len());
        }
        while i < load_keys.len()
            invariant
                i <= load_keys.len(),
                w == self@,
                all == load_keys.deep_view(),
                all.len() == load_keys@.len(),
                forall|k: Seq<char>|
                    #[trigger] w.workspace_indexes.contains_key(k) ==> w.workspace_indexes[k] < w.base.workspaces.len(),
                r.deep_view() == reload_keys_to(w, all, config@, i as int),
            decreases load_keys.len() - i,
        {
            proof {
                assert(all[i as int] == load_keys@[i as int]@);
            }
            match self.workspace_index(&load_keys[i]) {
                Some(index) => {
                    let workspace = &self.base.workspaces[index];
                    proof {
                        assert(w.base.workspaces[index as int] == workspace@);
                    }
                    push_client_key(&mut r, workspace);
                    push_asked(&mut r, proc_macro_spawn_key(&workspace.facts, config));
                },
                None => {},
            }
            i = i + 1;
        }
        r
    }

    /// The workspaces that an operation on macros is about, ascending: the given ones, and with keys
    /// all that use or ask for one of them. Without keys the given ones, as they are.
    pub fn proc_macro_indexes(
        &self,
        workspace_indexes: &Vec<usize>,
        reload_keys: Option<&Vec<ProcMacroSpawnKey>>,
        config: Option<&SpawnConfig>,
    ) -> (r: Vec<usize>)
        ensures
            is_order(r@, self@.base.workspaces, workspace_indexes@, keys_view(reload_keys), config_view(config)),
    {
        let keys = match reload_keys {
            None => {
                return copy_indexes(workspace_indexes);
            },
            Some(keys) => keys,
        };
        let ghost ws = self@.base.workspaces;
        let ghost c = config_view(config);
        let mut indexes: Vec<usize> = Vec::new();
        let mut i: usize = 0;
        while i < self.base.workspaces.len()
            invariant
                i <= self.base.workspaces.len(),
                ws == self@.base.workspaces,
                c == config_view(config),
                indexes@ == users_to(ws, c, keys.deep_view(), i as int),
            decreases self.base.workspaces.len() - i,
        {
            proof {
                assert(ws[i as int] == self.base.workspaces@[i as int]@);
            }
            if uses(&self.base.workspaces[i], config, keys) {
                indexes.push(i);
            }
            i = i + 1;
        }
        let ghost users = indexes@;
        let mut k: usize = 0;
        while k < workspace_indexes.len()
            invariant
                k <= workspace_indexes.len(),
                indexes@ == with_indexes_to(users, workspace_indexes@, k as int),
            decreases workspace_indexes.len() - k,
        {
            if !contains_index(&indexes, workspace_indexes[k]) {
                indexes.push(workspace_indexes[k]);
            }
            k = k + 1;
        }
        sort_indexes(indexes)
    }
}

/// A project as its build scripts left it: its number and what decides its macro server.
#[derive(Debug)]
pub struct ProjectState {
    pub project: u64,
    pub facts: ProcMacroFacts,
}

#[verifier::ext_equal]
pub struct ProjectView {
    pub project: u64,
    pub facts: FactsView,
}

impl View for ProjectState {
    type V = ProjectView;

    open spec fn view(&self) -> ProjectView {
        ProjectView { project: self.project, facts: self.facts@ }
    }
}

pub open spec fn project_views(projects: Seq<ProjectState>) -> Seq<ProjectView> {
    projects.map_values(|p: ProjectState| p@)
}

/// Why build data is taken over: it came in, or all is reloaded, or macros are rebuilt.
#[derive(Debug)]
pub enum BuildDataScope {
    Normal,
    Reload(Vec<ProcMacroSpawnKey>),
    Rebuild,
}

/// A workspace whose build data is to be worked out, as it was when that began.
pub struct BuildDataWorkspace {
    pub index: usize,
    pub project: u64,
    pub facts: ProcMacroFacts,
    pub files: Arc<LoadedWorkspaceFiles>,
    pub files_version: u64,
    pub build_data_loaded: bool,
    pub proc_macro_client: Option<Result<SharedProcMacroClient, String>>,
}

#[verifier::ext_equal]
pub struct BuildDataView {
    pub index: usize,
    pub project: u64,
    pub facts: FactsView,
    pub files: crate::files::FilesView,
    pub files_version: u64,
    pub build_data_loaded: bool,
    pub client: Option<Result<ClientView, Seq<char>>>,
}

impl View for BuildDataWorkspace {
    type V = BuildDataView;

    open spec fn view(&self) -> BuildDataView {
        BuildDataView {
            index: self.index,
            project: self.project,
            facts: self.facts@,
            files: self.files@,
            files_version: self.files_version,
            build_data_loaded: self.build_data_loaded,
            client: client_view(self.proc_macro_client),
        }
    }
}

pub open spec fn build_data_views(list: Seq<BuildDataWorkspace>) -> Seq<BuildDataView> {
    list.map_values(|w: BuildDataWorkspace| w@)
}

pub struct BuildDataSnapshot {
    pub generation: u64,
    pub workspaces: Vec<BuildDataWorkspace>,
    /// For a reload or a rebuild, whether it is a rebuild, and the keys of the servers concerned.
    pub operation_keys: Option<(bool, Vec<ProcMacroSpawnKey>)>,
}

/// The lists of workspaces, projects and build scripts are not equally long.
#[derive(Clone, Copy, Debug, PartialEq, Eq, Structural)]
pub struct InconsistentBuildData;

/// The projects by the index of their workspace: of two with one index the later counts.
pub open spec fn projects_to(indexes: Seq<usize>, projects: Seq<ProjectView>, n: int) -> Map<u64, ProjectView>
    decreases n,
{
    if n <= 0 {
        Map::empty()
    } else {
        projects_to(indexes, projects, n - 1).insert(indexes[n - 1] as u64, projects[n - 1])
    }
}

/// The keys, with those that the first `n` projects by index ask for.
pub open spec fn asked_to(keys: Seq<SpawnKeyView>, projects: Map<u64, ProjectView>, config: SpawnConfigView, n: int) -> Seq<SpawnKeyView>
    decreases n,
{
    if n <= 0 {
        keys
    } else {
        let project = projects[sorted_keys::<u64>(projects.dom())[n - 1]];
        with_asked(asked_to(keys, projects, config, n - 1), spawn_key(project.facts, config))
    }
}

/// The keys that the first `n` workspaces use, and that they and their projects ask for.
pub open spec fn rebuild_keys_to(
    ws: Seq<LoadedView>,
    indexes: Seq<usize>,
    projects: Seq<ProjectView>,
    config: SpawnConfigView,
    n: int,
) -> Seq<SpawnKeyView>
    decreases n,
{
    if n <= 0 {
        Seq::empty()
    } else {
        let before = rebuild_keys_to(ws, indexes, projects, config, n - 1);
        let lw = ws[indexes[n - 1] as int];
        let used = match client_key(lw) {
            Some(key) => with_key(before, key),
            None => before,
        };
        with_asked(with_asked(used, spawn_key(lw.facts, config)), spawn_key(projects[n - 1].facts, config))
    }
}

pub open spec fn scope_keys(
    w: WorldView,
    indexes: Seq<usize>,
    projects: Seq<ProjectView>,
    config: SpawnConfigView,
    scope: BuildDataScope,
) -> Seq<SpawnKeyView> {
    match scope {
        BuildDataScope::Normal => Seq::empty(),
        BuildDataScope::Reload(keys) => {
            let updated = projects_to(indexes, projects, indexes.len() as int);
            asked_to(keys.deep_view(), updated, config, sorted_keys::<u64>(updated.dom()).len() as int)
        },
        BuildDataScope::Rebuild => rebuild_keys_to(w.base.workspaces, indexes, projects, config, indexes.len() as int),
    }
}

/// The workspaces concerned: the given ones, and with keys those below `n` that use or ask for one.
pub open spec fn targets_to(
    indexes: Seq<usize>,
    ws: Seq<LoadedView>,
    config: SpawnConfigView,
    keys: Seq<SpawnKeyView>,
    n: int,
) -> Seq<usize>
    decreases n,
{
    if n <= 0 || keys.len() == 0 {
        indexes
    } else {
        let before = targets_to(indexes, ws, config, keys, n - 1);
        if !indexes.contains((n - 1) as usize) && uses_one_of(ws[n - 1], Some(config), keys) {
            before.push((n - 1) as usize)
        } else {
            before
        }
    }
}

/// A workspace with the project that came in for it, or else with its own.
pub open spec fn build_data_entry(ws: Seq<LoadedView>, updated: Map<u64, ProjectView>, index: usize) -> BuildDataView {
    let lw = ws[index as int];
    let came = updated.contains_key(index as u64);
    BuildDataView {
        index,
        project: if came {
            updated[index as u64].project
        } else {
            lw.project
        },
        facts: if came {
            updated[index as u64].facts
        } else {
            lw.facts
        },
        files: lw.files,
        files_version: lw.files_version,
        build_data_loaded: came || lw.build_data_loaded,
        client: lw.client,
    }
}

/// The projects that are left after the first `n` indexes: each is used once.
pub open spec fn unused_to(updated: Map<u64, ProjectView>, indexes: Seq<usize>, n: int) -> Map<u64, ProjectView>
    decreases n,
{
    if n <= 0 {
        updated
    } else {
        unused_to(updated, indexes, n - 1).remove(indexes[n - 1] as u64)
    }
}

pub open spec fn build_data_entries(ws: Seq<LoadedView>, updated: Map<u64, ProjectView>, indexes: Seq<usize>) -> Seq<BuildDataView> {
    Seq::new(indexes.len(), |i: int| build_data_entry(ws, unused_to(updated, indexes, i), indexes[i]))
}

pub open spec fn indexes_of(list: Seq<BuildDataView>) -> Seq<usize> {
    list.map_values(|v: BuildDataView| v.index)
}

fn projects_by_index(indexes: &Vec<usize>, projects: Vec<ProjectState>) -> (r: OrderedMap<u64, ProjectState>)
    requires
        indexes.len() == projects.len(),
    ensures
        r@.map_values(|p: ProjectState| p@) == projects_to(indexes@, project_views(projects@), indexes@.len() as int),
{
    let ghost whole = projects@;
    let ghost views = project_views(whole);
    let mut projects = projects;
    let mut r: OrderedMap<u64, ProjectState> = OrderedMap::new();
    let mut i: usize = 0;
    proof {
        assert(whole.skip(0) =~= whole);
        assert(r@.map_values(|p: ProjectState| p@) =~= Map::empty());
    }
    while i < indexes.len()
        invariant
            i <= indexes.len(),
            indexes.len() == whole.len(),
            projects@ == whole.skip(i as int),
            views == project_views(whole),
            r@.map_values(|p: ProjectState| p@) == projects_to(indexes@, views, i as int),
        decreases indexes.len() - i,
    {
        let project = projects.remove(0);
        let ghost before = r@.map_values(|p: ProjectState| p@);
        proof {
            assert(whole.skip(i as int)[0] == whole[i as int]);
            assert(views[i as int] == project@);
            assert(whole.skip(i as int).remove(0) =~= whole.skip(i + 1));
        }
        r.insert(indexes[i] as u64, project);
        proof {
            assert(r@.map_values(|p: ProjectState| p@) =~= before.insert(indexes@[i as int] as u64, views[i as int]));
        }
        i = i + 1;
    }
    r
}

impl SharedWorld {
    fn scope_keys(
        &self,
        indexes: &Vec<usize>,
        projects: &Vec<ProjectState>,
        config: &SpawnConfig,
        scope: &BuildDataScope,
    ) -> (r: Vec<ProcMacroSpawnKey>)
        requires
            indexes.len() == projects.len(),
            forall|i: int| 0 <= i < indexes@.len() ==> (#[trigger] indexes@[i]) < self@.base.workspaces.len(),
        ensures
            r.deep_view() == scope_keys(self@, indexes@, project_views(projects@), config@, *scope),
    {
        let ghost ws = self@.base.workspaces;
        let ghost views = project_views(projects@);
        let mut r: Vec<ProcMacroSpawnKey> = Vec::new();
        proof {
            assert(r.deep_view() =~= Seq::empty());
        }
        match scope {
            BuildDataScope::Normal => {},
            BuildDataScope::Reload(keys) => {
                r = keys.duplicate();
                let mut copies: Vec<ProjectState> = Vec::new();
                let mut k: usize = 0;
                proof {
                    assert(project_views(copies@) =~= views.take(0));
                }
                while k < projects.len()
                    invariant
                        k <= projects.len(),
                        views == project_views(projects@),
                        copies@.len() == k,
                        project_views(copies@) == views.take(k as int),
                    decreases projects.len() - k,
                {
                    let ghost before = project_views(copies@);
                    let copy = ProjectState { project: projects[k].project, facts: projects[k].facts.duplicate() };
                    let ghost view = copy@;
                    copies.push(copy);
                    proof {
                        assert(view == views[k as int]);
                        assert(project_views(copies@) =~= before.push(view));
                        assert(project_views(copies@) =~= views.take(k + 1));
                    }
                    k = k + 1;
                }
                proof {
                    assert(views.take(k as int) =~= views);
                }
                let updated = projects_by_index(indexes, copies);
                let n = updated.len();
                let ghost all = updated@.map_values(|p: ProjectState| p@);
                let ghost start = r.deep_view();
                let mut i: usize = 0;
                proof {
                    lemma_sorted_keys(updated);
                    assert(all.dom() =~= updated@.dom());
                }
                while i < n
                    invariant
                        i <= n,
                        n == updated.keys().len(),
                        listed(updated),
                        all == updated@.map_values(|p: ProjectState| p@),
                        updated.keys() == sorted_keys::<u64>(all.dom()),
                        r.deep_view() == asked_to(start, all, config@, i as int),
                    decreases n - i,
                {
                    let project = updated.value_at(i);
                    proof {
                        assert(updated@.contains_key(updated.keys()[i as int]));
                        assert(all[updated.keys()[i as int]] == project@);
                    }
                    push_asked(&mut r, proc_macro_spawn_key(&project.facts, config));
                    i = i + 1;
                }
            },
            BuildDataScope::Rebuild => {
                let mut i: usize = 0;
                while i < indexes.len()
                    invariant
                        i <= indexes.len(),
                        indexes.len() == projects.len(),
                        ws == self@.base.workspaces,
                        views == project_views(projects@),
                        forall|j: int| 0 <= j < indexes@.len() ==> (#[trigger] indexes@[j]) < ws.len(),
                        r.deep_view() == rebuild_keys_to(ws, indexes@, views, config@, i as int),
                    decreases indexes.len() - i,
                {
                    let index: usize = indexes[i];
                    let workspace = &self.base.workspaces[index];
                    proof {
                        assert(ws[index as int] == workspace@);
                        assert(views[i as int] == projects@[i as int]@);
                    }
                    push_client_key(&mut r, workspace);
                    push_asked(&mut r, proc_macro_spawn_key(&workspace.facts, config));
                    push_asked(&mut r, proc_macro_spawn_key(&projects[i].facts, config));
                    i = i + 1;
                }
            },
        }
        r
    }

    fn targets(&self, indexes: &Vec<usize>, config: &SpawnConfig, keys: &Vec<ProcMacroSpawnKey>) -> (r: Vec<usize>)
        requires
            forall|i: int| 0 <= i < indexes@.len() ==> (#[trigger] indexes@[i]) < self@.base.workspaces.len(),
        ensures
            ascending_indexes(r@),
            r@.to_multiset() == targets_to(
                indexes@,
                self@.base.workspaces,
                config@,
                keys.deep_view(),
                self@.base.workspaces.len() as int,
            ).to_multiset(),
            forall|i: int| 0 <= i < r@.len() ==> (#[trigger] r@[i]) < self@.base.workspaces.len(),
            forall|i: usize|
                i < self@.base.workspaces.len() ==> (#[trigger] r@.contains(i) <==> indexes@.contains(i) || (
                self@.base.workspaces[i as int].client matches Some(Ok(client)) && keys.deep_view().contains(client.key)) || (
                spawn_key(self@.base.workspaces[i as int].facts, config@) matches Some(Ok(key)) && keys.deep_view().contains(key))),
    {
        let ghost ws = self@.base.workspaces;
        let ghost k = keys.deep_view();
        let mut list = copy_indexes(indexes);
        proof {
            assert(k.len() == keys@.len());
        }
        if keys.len() > 0 {
            let mut i: usize = 0;
            while i < self.base.workspaces.len()
                invariant
                    i <= self.base.workspaces.len(),
                    ws == self@.base.workspaces,
                    k == keys.deep_view(),
                    k.len() > 0,
                    list@ == targets_to(indexes@, ws, config@, k, i as int),
                    forall|j: int| 0 <= j < list@.len() ==> (#[trigger] list@[j]) < ws.len(),
                decreases self.base.workspaces.len() - i,
            {
                proof {
                    assert(ws[i as int] == self.base.workspaces@[i as int]@);
                }
                if !contains_index(indexes, i) && uses(&self.base.workspaces[i], Some(config), keys) {
                    list.push(i);
                }
                i = i + 1;
            }
        }
        let ghost before = list@;
        let r = sort_indexes(list);
        proof {
            r@.to_multiset_ensures();
            before.to_multiset_ensures();
            assert forall|i: int| 0 <= i < r@.len() implies (#[trigger] r@[i]) < ws.len() by {
                assert(r@.contains(r@[i]));
                assert(r@.to_multiset().count(r@[i]) > 0);
                assert(before.contains(r@[i]));
                let j = before.index_of(r@[i]);
                assert(before[j] < ws.len());
            }
            assert forall|i: usize| i < ws.len() implies #[trigger] r@.contains(i) == before.contains(i) by {
                assert(r@.contains(i) <==> r@.to_multiset().count(i) > 0);
                assert(before.contains(i) <==> before.to_multiset().count(i) > 0);
            }
            assert forall|i: usize| i < ws.len() implies (#[trigger] r@.contains(i) <==> indexes@.contains(i) || (
            ws[i as int].client matches Some(Ok(client)) && k.contains(client.key)) || (spawn_key(
                ws[i as int].facts,
                config@,
            ) matches Some(Ok(key)) && k.contains(key))) by {
                assert(ws.len() == self.base.workspaces.len());
                law_macro_servers_are_refreshed_everywhere(indexes@, ws, config@, k, i);
            }
        }
        r
    }

    /// What build data is to be worked out for, once build scripts have run: the given workspaces
    /// with their new projects, and for a reload or a rebuild all workspaces that share a macro
    /// server with them. There is nothing to do where workspaces were loaded in the meantime.
    pub fn build_data_snapshot(
        &self,
        workspace_indexes: &Vec<usize>,
        projects: Vec<ProjectState>,
        build_scripts: usize,
        config: &SpawnConfig,
        expected_generation: u64,
        scope: BuildDataScope,
    ) -> (r: Result<Option<BuildDataSnapshot>, InconsistentBuildData>)
        requires
            forall|i: int| 0 <= i < workspace_indexes@.len() ==> (#[trigger] workspace_indexes@[i]) < self@.base.workspaces.len(),
        ensures
            self@.workspace_generation != expected_generation ==> r matches Ok(None),
            self@.workspace_generation == expected_generation ==> (r is Err <==> workspace_indexes@.len() != projects@.len()
                || projects@.len() != build_scripts),
            self@.workspace_generation == expected_generation && r is Ok ==> {
                let keys = scope_keys(self@, workspace_indexes@, project_views(projects@), config@, scope);
                &&& r matches Ok(Some(snapshot))
                &&& snapshot.generation == self@.workspace_generation
                &&& (match snapshot.operation_keys {
                    None => scope is Normal,
                    Some((rebuild, list)) => !(scope is Normal) && rebuild == (scope is Rebuild) && list.deep_view() == keys,
                })
                &&& ascending_indexes(indexes_of(build_data_views(snapshot.workspaces@)))
                &&& indexes_of(build_data_views(snapshot.workspaces@)).to_multiset() == targets_to(
                    workspace_indexes@,
                    self@.base.workspaces,
                    config@,
                    keys,
                    self@.base.workspaces.len() as int,
                ).to_multiset()
                &&& forall|i: usize|
                    i < self@.base.workspaces.len() ==> (#[trigger] indexes_of(build_data_views(snapshot.workspaces@)).contains(i)
                        <==> workspace_indexes@.contains(i) || (self@.base.workspaces[i as int].client matches Some(Ok(client))
                        && keys.contains(client.key)) || (spawn_key(self@.base.workspaces[i as int].facts, config@) matches Some(
                        Ok(key),
                    ) && keys.contains(key)))
                &&& build_data_views(snapshot.workspaces@) == build_data_entries(
                    self@.base.workspaces,
                    projects_to(workspace_indexes@, project_views(projects@), workspace_indexes@.len() as int),
                    indexes_of(build_data_views(snapshot.workspaces@)),
                )
            },
    {
        if self.workspace_generation != expected_generation {
            return Ok(None);
        }
        if workspace_indexes.len() != projects.len() || projects.len() != build_scripts {
            return Err(InconsistentBuildData);
        }
        let ghost ws = self@.base.workspaces;
        let ghost views = project_views(projects@);
        let keys = self.scope_keys(workspace_indexes, &projects, config, &scope);
        let targets = self.targets(workspace_indexes, config, &keys);
        let mut updated = projects_by_index(workspace_indexes, projects);
        let ghost came = projects_to(workspace_indexes@, views, workspace_indexes@.len() as int);
        let ghost want = build_data_entries(ws, came, targets@);
        let mut workspaces: Vec<BuildDataWorkspace> = Vec::new();
        let mut i: usize = 0;
        proof {
            assert(build_data_views(workspaces@) =~= want.take(0));
        }
        while i < targets.len()
            invariant
                i <= targets.len(),
                ws == self@.base.workspaces,
                forall|j: int| 0 <= j < targets@.len() ==> (#[trigger] targets@[j]) < ws.len(),
                want == build_data_entries(ws, came, targets@),
                updated@.map_values(|p: ProjectState| p@) == unused_to(came, targets@, i as int),
                build_data_views(workspaces@) == want.take(i as int),
            decreases targets.len() - i,
        {
            let index: usize = targets[i];
            let workspace = &self.base.workspaces[index];
            let ghost left = updated@.map_values(|p: ProjectState| p@);
            let ghost before = build_data_views(workspaces@);
            proof {
                assert(ws[index as int] == workspace@);
            }
            let project = updated.remove(&(index as u64));
            proof {
                assert(updated@.map_values(|p: ProjectState| p@) =~= left.remove(index as u64));
                assert(project is Some == left.contains_key(index as u64));
                assert(project is Some ==> left[index as u64] == project->0@);
            }
            let build_data_loaded = project.is_some() || workspace.build_data_loaded;
            let (number, facts) = match project {
                Some(project) => (project.project, project.facts),
                None => (workspace.project, workspace.facts.duplicate()),
            };
            let entry = BuildDataWorkspace {
                index,
                project: number,
                facts,
                files: share(&workspace.files),
                files_version: workspace.files_version,
                build_data_loaded,
                proc_macro_client: duplicate_client(&workspace.proc_macro_client),
            };
            let ghost view = entry@;
            workspaces.push(entry);
            proof {
                assert(view =~= build_data_entry(ws, left, index));
                assert(build_data_views(workspaces@) =~= before.push(view));
                assert(build_data_views(workspaces@) =~= want.take(i + 1));
            }
            i = i + 1;
        }
        proof {
            assert(want.take(i as int) =~= want);
            assert(indexes_of(want) =~= targets@);
        }
        let operation_keys = match scope {
            BuildDataScope::Normal => None,
            BuildDataScope::Reload(_) => Some((false, keys)),
            BuildDataScope::Rebuild => Some((true, keys)),
        };
        Ok(Some(BuildDataSnapshot { generation: self.workspace_generation, workspaces, operation_keys }))
    }
}

} // verus!
