//! Taking over build data, and the macros of workspaces.
use crate::base::{
    client_view, contains_index, duplicate_client, BaseView, ClientView, FactsView, LoadedView, LoadedWorkspace,
    ProcMacroFacts, SharedProcMacroClient, SummaryView,
};
use crate::build_data::{
    config_view, is_order, keys_view, lemma_order_is_scope, macro_scope, uses, uses_one_of, BuildDataSnapshot, BuildDataView, BuildDataWorkspace,
};
use crate::load::ProcMacroLoadState;
use crate::spawn::SpawnConfig;
use crate::spawn_key::ProcMacroSpawnKey;
use crate::tokens::Tokens;
use crate::world::{SharedWorld, WorldView};
use rustc_hash::FxHashMap;
use vstd::prelude::*;

verus! {

/// What was worked out for a workspace: a macro server, where one was to be started, the macros,
/// and the parents of its source roots.
pub struct BuildOutcome {
    pub spawned: Option<Result<SharedProcMacroClient, String>>,
    pub has_proc_macro_paths: bool,
    pub proc_macros: u64,
    pub source_root_parent_map: FxHashMap<u32, u32>,
}

/// Build data that can be taken over.
pub struct PreparedBuildDataWorkspace {
    pub index: usize,
    pub project: u64,
    pub facts: ProcMacroFacts,
    pub files_version: u64,
    pub has_proc_macro_paths: bool,
    pub proc_macros: u64,
    pub proc_macros_loaded: bool,
    pub build_data_loaded: bool,
    pub proc_macro_client: Option<Result<SharedProcMacroClient, String>>,
    pub source_root_parent_map: FxHashMap<u32, u32>,
}

#[verifier::ext_equal]
pub struct PreparedView {
    pub index: usize,
    pub project: u64,
    pub facts: FactsView,
    pub files_version: u64,
    pub has_proc_macro_paths: bool,
    pub proc_macros: u64,
    pub proc_macros_loaded: bool,
    pub build_data_loaded: bool,
    pub client: Option<Result<ClientView, Seq<char>>>,
    pub parents: Map<u32, u32>,
}

impl View for PreparedBuildDataWorkspace {
    type V = PreparedView;

    open spec fn view(&self) -> PreparedView {
        PreparedView {
            index: self.index,
            project: self.project,
            facts: self.facts@,
            files_version: self.files_version,
            has_proc_macro_paths: self.has_proc_macro_paths,
            proc_macros: self.proc_macros,
            proc_macros_loaded: self.proc_macros_loaded,
            build_data_loaded: self.build_data_loaded,
            client: client_view(self.proc_macro_client),
            parents: self.source_root_parent_map@,
        }
    }
}

/// The build data of a snapshot's workspaces, with the generation they were taken in and the keys
/// that the operation is about.
pub struct PreparedBuildData {
    pub generation: u64,
    pub workspaces: Vec<PreparedBuildDataWorkspace>,
    pub operation_keys: Option<(bool, Vec<ProcMacroSpawnKey>)>,
}

pub open spec fn prepared_data_views(list: Seq<PreparedBuildDataWorkspace>) -> Seq<PreparedView> {
    list.map_values(|p: PreparedBuildDataWorkspace| p@)
}

/// A server is to be started: macros are rebuilt, or the workspace has none yet.
pub open spec fn needs_server(rebuild: bool, client: Option<Result<ClientView, Seq<char>>>) -> bool {
    rebuild || client is None
}

pub open spec fn is_rebuild(snapshot: BuildDataSnapshot) -> bool {
    snapshot.operation_keys matches Some((rebuild, _)) && rebuild
}

/// The build data of a workspace: its old server stays unless one was to be started.
pub open spec fn prepared_data(v: BuildDataView, rebuild: bool, outcome: BuildOutcome, state: ProcMacroLoadState) -> PreparedView {
    PreparedView {
        index: v.index,
        project: v.project,
        facts: v.facts,
        files_version: v.files_version,
        has_proc_macro_paths: outcome.has_proc_macro_paths,
        proc_macros: outcome.proc_macros,
        proc_macros_loaded: !(state is NotYetBuilt) || !outcome.has_proc_macro_paths,
        build_data_loaded: v.build_data_loaded,
        client: if needs_server(rebuild, v.client) {
            client_view(outcome.spawned)
        } else {
            v.client
        },
        parents: outcome.source_root_parent_map@,
    }
}

/// The running servers of the first `n` workspaces.
pub open spec fn clients_to(list: Seq<BuildDataWorkspace>, n: int) -> Seq<u64>
    decreases n,
{
    if n <= 0 {
        Seq::empty()
    } else {
        match list[n - 1].proc_macro_client {
            Some(Ok(client)) => clients_to(list, n - 1).push(client.client),
            _ => clients_to(list, n - 1),
        }
    }
}

/// The servers that may not be used again: for a rebuild all that the workspaces use.
pub open spec fn rejected_servers(snapshot: BuildDataSnapshot) -> Seq<u64> {
    if is_rebuild(snapshot) {
        clients_to(snapshot.workspaces@, snapshot.workspaces@.len() as int)
    } else {
        Seq::empty()
    }
}

/// The server is not one of those listed.
pub open spec fn avoids(client: Option<Result<ClientView, Seq<char>>>, rejected: Seq<u64>) -> bool {
    client matches Some(Ok(server)) ==> !rejected.contains(server.client)
}

impl BuildDataSnapshot {
    fn rebuild(&self) -> (r: bool)
        ensures
            r == is_rebuild(*self),
    {
        match &self.operation_keys {
            Some(keys) => keys.0,
            None => false,
        }
    }

    /// For each workspace, whether a server is to be started.
    pub fn needs_server(&self) -> (r: Vec<bool>)
        ensures
            r@.len() == self.workspaces@.len(),
            forall|i: int| 0 <= i < r@.len() ==> #[trigger] r@[i] == needs_server(is_rebuild(*self), self.workspaces@[i]@.client),
    {
        let rebuild = self.rebuild();
        let mut r: Vec<bool> = Vec::new();
        let mut i: usize = 0;
        while i < self.workspaces.len()
            invariant
                i <= self.workspaces.len(),
                rebuild == is_rebuild(*self),
                r@.len() == i,
                forall|j: int| 0 <= j < i ==> #[trigger] r@[j] == needs_server(is_rebuild(*self), self.workspaces@[j]@.client),
            decreases self.workspaces.len() - i,
        {
            r.push(rebuild || self.workspaces[i].proc_macro_client.is_none());
            i = i + 1;
        }
        r
    }

    /// The servers that may not be used again: for a rebuild all that the workspaces use.
    pub fn rejected(&self) -> (r: Vec<u64>)
        ensures
            r@ == rejected_servers(*self),
    {
        let mut r: Vec<u64> = Vec::new();
        if !self.rebuild() {
            return r;
        }
        let mut i: usize = 0;
        while i < self.workspaces.len()
            invariant
                i <= self.workspaces.len(),
                r@ == clients_to(self.workspaces@, i as int),
            decreases self.workspaces.len() - i,
        {
            match &self.workspaces[i].proc_macro_client {
                Some(Ok(client)) => {
                    r.push(client.client);
                },
                _ => {},
            }
            i = i + 1;
        }
        r
    }

    /// Puts together what is to be taken over. None of the servers that were started is one that may
    /// not be used again, and so after a rebuild no workspace has one of those.
    pub fn prepare(self, outcomes: Vec<BuildOutcome>, state: ProcMacroLoadState) -> (r: PreparedBuildData)
        requires
            outcomes@.len() == self.workspaces@.len(),
            forall|i: int| 0 <= i < outcomes@.len() ==> avoids(client_view((#[trigger] outcomes@[i]).spawned), rejected_servers(self)),
        ensures
            r.generation == self.generation,
            r.operation_keys == self.operation_keys,
            r.workspaces@.len() == self.workspaces@.len(),
            forall|i: int|
                0 <= i < r.workspaces@.len() ==> (#[trigger] r.workspaces@[i])@ == prepared_data(
                    self.workspaces@[i]@,
                    is_rebuild(self),
                    outcomes@[i],
                    state,
                ),
            forall|i: int|
                0 <= i < r.workspaces@.len() ==> avoids((#[trigger] r.workspaces@[i])@.client, rejected_servers(self)),
    {
        let ghost snapshot = self;
        let generation: u64 = self.generation;
        let ghost whole = self.workspaces@;
        let ghost all = outcomes@;
        let ghost again = is_rebuild(self);
        let rebuild = self.rebuild();
        let not_built = match state {
            ProcMacroLoadState::NotYetBuilt => true,
            _ => false,
        };
        let mut workspaces = self.workspaces;
        let mut outcomes = outcomes;
        let mut r: Vec<PreparedBuildDataWorkspace> = Vec::new();
        proof {
            assert(whole.skip(0) =~= whole);
            assert(all.skip(0) =~= all);
        }
        while workspaces.len() > 0
            invariant
                r@.len() <= whole.len(),
                whole.len() == all.len(),
                workspaces@ == whole.skip(r@.len() as int),
                outcomes@ == all.skip(r@.len() as int),
                rebuild == again,
                not_built == (state is NotYetBuilt),
                forall|i: int| 0 <= i < r@.len() ==> (#[trigger] r@[i])@ == prepared_data(whole[i]@, again, all[i], state),
            decreases workspaces.len(),
        {
            let ghost i = r@.len() as int;
            let workspace = workspaces.remove(0);
            let outcome = outcomes.remove(0);
            proof {
                assert(whole.skip(i)[0] == whole[i] && all.skip(i)[0] == all[i]);
                assert(whole.skip(i).remove(0) =~= whole.skip(i + 1));
                assert(all.skip(i).remove(0) =~= all.skip(i + 1));
            }
            let proc_macro_client = if rebuild || workspace.proc_macro_client.is_none() {
                outcome.spawned
            } else {
                workspace.proc_macro_client
            };
            let prepared = PreparedBuildDataWorkspace {
                index: workspace.index,
                project: workspace.project,
                facts: workspace.facts,
                files_version: workspace.files_version,
                has_proc_macro_paths: outcome.has_proc_macro_paths,
                proc_macros: outcome.proc_macros,
                proc_macros_loaded: !not_built || !outcome.has_proc_macro_paths,
                build_data_loaded: workspace.build_data_loaded,
                proc_macro_client,
                source_root_parent_map: outcome.source_root_parent_map,
            };
            proof {
                assert(prepared@ =~= prepared_data(whole[i]@, again, all[i], state));
            }
            r.push(prepared);
        }
        proof {
            assert forall|i: int| 0 <= i < r@.len() implies avoids((#[trigger] r@[i])@.client, rejected_servers(snapshot)) by {
                assert(avoids(client_view(all[i].spawned), rejected_servers(snapshot)));
            }
        }
        PreparedBuildData { generation, workspaces: r, operation_keys: self.operation_keys }
    }
}

/// A workspace with build data taken over.
pub open spec fn with_build_data(lw: LoadedView, p: PreparedView) -> LoadedView {
    LoadedView {
        summary: SummaryView { proc_macro_server: p.client matches Some(Ok(_)), ..lw.summary },
        project: p.project,
        facts: p.facts,
        has_proc_macro_paths: p.has_proc_macro_paths,
        proc_macros: p.proc_macros,
        proc_macros_loaded: p.proc_macros_loaded,
        build_data_loaded: p.build_data_loaded,
        parents: p.parents,
        client: p.client,
        ..lw
    }
}

pub open spec fn with_build_data_to(ws: Seq<LoadedView>, list: Seq<PreparedView>, n: int) -> Seq<LoadedView>
    decreases n,
{
    if n <= 0 {
        ws
    } else {
        let before = with_build_data_to(ws, list, n - 1);
        let at = list[n - 1].index as int;
        before.update(at, with_build_data(before[at], list[n - 1]))
    }
}

/// The build data is of the world as it is: no workspace was loaded and no file of the workspaces
/// changed since it was begun.
pub open spec fn is_current(w: WorldView, generation: u64, list: Seq<PreparedView>) -> bool {
    &&& w.workspace_generation == generation
    &&& forall|i: int|
        0 <= i < list.len() ==> w.base.workspaces[(#[trigger] list[i]).index as int].files_version == list[i].files_version
}

/// The workspaces are what they were, but for what no invariant speaks of.
pub open spec fn same_shape(a: Seq<LoadedView>, b: Seq<LoadedView>) -> bool {
    &&& a.len() == b.len()
    &&& forall|i: int| 0 <= i < a.len() ==> (#[trigger] a[i]).files == b[i].files && a[i].source_roots == b[i].source_roots
}

pub open spec fn with_loaded(w: WorldView, ws: Seq<LoadedView>) -> WorldView {
    WorldView { base: BaseView { workspaces: ws, ..w.base }, ..w }
}

/// A world stays well-formed when nothing but projects, macros and the like changes.
pub proof fn lemma_same_shape(w: WorldView, ws: Seq<LoadedView>, next: u32)
    requires
        w.wf(next),
        same_shape(ws, w.base.workspaces),
    ensures
        with_loaded(w, ws).wf(next),
{
    let r = with_loaded(w, ws);
    let old_ws = w.base.workspaces;
    assert forall|i: int| 0 <= i < ws.len() implies (#[trigger] ws[i]).files == old_ws[i].files && ws[i].source_roots
        == old_ws[i].source_roots by {}
    assert(r.base.readable()) by {
        assert forall|i: int, f: u32| 0 <= i < ws.len() && #[trigger] ws[i].files.file_exists(f) implies r.base.has_file(f) by {
            assert(old_ws[i].files.file_exists(f));
            assert(w.base.has_file(f));
        }
        assert forall|i: int, q: int, f: u32|
            0 <= i < ws.len() && 0 <= q < ws[i].source_roots.len() && #[trigger] ws[i].source_roots[q].files.contains_key(f) implies r.base.has_file(f) by {
            assert(old_ws[i].source_roots[q].files.contains_key(f));
            assert(w.base.has_file(f));
        }
        assert forall|i: int, q: int| 0 <= i < ws.len() && 0 <= q < ws[i].source_roots.len() implies (#[trigger] ws[i].source_roots[q]).files.dom().finite() by {
            assert(old_ws[i].source_roots[q].files.dom().finite());
        }
    }
    assert(crate::world::paths_agree(w.file_ids, ws)) by {
        reveal(crate::world::paths_agree);
        assert forall|i: int| 0 <= i < ws.len() implies crate::world::workspace_agrees(w.file_ids, #[trigger] ws[i]) by {
            assert(crate::world::workspace_agrees(w.file_ids, old_ws[i]));
        }
    }
    assert(crate::world::disk_numbers_apart(r, next)) by {
        assert forall|i: int, f: u32, s: u64|
            0 <= i < ws.len() && #[trigger] ws[i].files.contains_file(f) && r.overlays.contains_key(s) implies !#[trigger] r.overlays[s].path_by_file.contains_key(f) by {
            assert(old_ws[i].files.contains_file(f));
            assert(!w.overlays[s].path_by_file.contains_key(f));
        }
        assert forall|i: int, f: u32| 0 <= i < ws.len() && #[trigger] ws[i].files.contains_file(f) implies f < next by {
            assert(old_ws[i].files.contains_file(f));
        }
        assert forall|i: int| 0 <= i < ws.len() implies (#[trigger] ws[i]).files.wf() by {
            assert(old_ws[i].files.wf());
        }
    }
}

proof fn lemma_build_data_shape(ws: Seq<LoadedView>, list: Seq<PreparedView>, n: int)
    requires
        0 <= n <= list.len(),
        forall|i: int| 0 <= i < list.len() ==> (#[trigger] list[i]).index < ws.len(),
    ensures
        same_shape(with_build_data_to(ws, list, n), ws),
    decreases n,
{
    if n > 0 {
        lemma_build_data_shape(ws, list, n - 1);
        let before = with_build_data_to(ws, list, n - 1);
        let r = with_build_data_to(ws, list, n);
        assert forall|i: int| 0 <= i < r.len() implies (#[trigger] r[i]).files == ws[i].files && r[i].source_roots == ws[i].source_roots by {
            assert(before[i].files == ws[i].files);
        }
    }
}

fn take_build_data(workspace: &mut LoadedWorkspace, p: PreparedBuildDataWorkspace)
    ensures
        final(workspace)@ == with_build_data(old(workspace)@, p@),
{
    let ghost before = workspace@;
    let ghost view = p@;
    let server = match &p.proc_macro_client {
        Some(Ok(_)) => true,
        _ => false,
    };
    workspace.project = p.project;
    workspace.facts = p.facts;
    workspace.source_root_parent_map = p.source_root_parent_map;
    workspace.has_proc_macro_paths = p.has_proc_macro_paths;
    workspace.proc_macros = p.proc_macros;
    workspace.proc_macros_loaded = p.proc_macros_loaded;
    workspace.build_data_loaded = p.build_data_loaded;
    workspace.proc_macro_client = p.proc_macro_client;
    workspace.summary.proc_macro_server = server;
    proof {
        assert(workspace@.summary =~= with_build_data(before, view).summary);
        assert(workspace@ =~= with_build_data(before, view));
    }
}

impl SharedWorld {
    /// Takes over build data, unless it is out of date. The source roots of the workspaces have to
    /// be worked out anew after it.
    pub fn commit_build_data(&mut self, generation: u64, workspaces: Vec<PreparedBuildDataWorkspace>) -> (r: bool)
        requires
            forall|i: int| 0 <= i < workspaces@.len() ==> (#[trigger] workspaces@[i]).index < old(self)@.base.workspaces.len(),
        ensures
            r == is_current(old(self)@, generation, prepared_data_views(workspaces@)),
            r ==> final(self)@ == with_loaded(
                old(self)@,
                with_build_data_to(old(self)@.base.workspaces, prepared_data_views(workspaces@), workspaces@.len() as int),
            ),
            !r ==> final(self)@ == old(self)@,
            forall|next: u32| old(self)@.wf(next) ==> #[trigger] final(self)@.wf(next),
    {
        let ghost w = self@;
        let ghost ws = self@.base.workspaces;
        let ghost whole = workspaces@;
        let ghost views = prepared_data_views(whole);
        if self.workspace_generation != generation {
            return false;
        }
        let mut k: usize = 0;
        while k < workspaces.len()
            invariant
                k <= workspaces.len(),
                self@ == w,
                w == old(self)@,
                ws == w.base.workspaces,
                whole == workspaces@,
                views == prepared_data_views(whole),
                w.workspace_generation == generation,
                forall|i: int| 0 <= i < whole.len() ==> (#[trigger] whole[i]).index < ws.len(),
                forall|i: int| 0 <= i < k ==> ws[(#[trigger] views[i]).index as int].files_version == views[i].files_version,
            decreases workspaces.len() - k,
        {
            let p = &workspaces[k];
            proof {
                assert(whole[k as int].index < ws.len());
                assert(views[k as int] == p@);
                assert(ws[p.index as int] == self.base.workspaces@[p.index as int]@);
            }
            if self.base.workspaces[p.index].files_version != p.files_version {
                return false;
            }
            k = k + 1;
        }
        let mut workspaces = workspaces;
        let ghost mut i: int = 0;
        proof {
            assert(whole.skip(0) =~= whole);
        }
        while workspaces.len() > 0
            invariant
                0 <= i <= whole.len(),
                workspaces@ == whole.skip(i),
                views == prepared_data_views(whole),
                forall|j: int| 0 <= j < whole.len() ==> (#[trigger] whole[j]).index < ws.len(),
                self.base.workspaces.len() == ws.len(),
                ws == w.base.workspaces,
                self@ == with_loaded(w, with_build_data_to(ws, views, i)),
                with_build_data_to(ws, views, i).len() == ws.len(),
            decreases workspaces.len(),
        {
            let p = workspaces.remove(0);
            let at: usize = p.index;
            let ghost here = self@.base.workspaces;
            proof {
                assert(whole.skip(i)[0] == whole[i]);
                assert(whole[i].index < ws.len());
                assert(views[i] == p@);
                assert(whole.skip(i).remove(0) =~= whole.skip(i + 1));
                assert(here[at as int] == self.base.workspaces@[at as int]@);
            }
            take_build_data(&mut self.base.workspaces[at], p);
            proof {
                assert(self@.base.workspaces =~= with_build_data_to(ws, views, i + 1));
                i = i + 1;
            }
        }
        proof {
            assert forall|next: u32| w.wf(next) implies #[trigger] self@.wf(next) by {
                assert forall|j: int| 0 <= j < views.len() implies (#[trigger] views[j]).index < ws.len() by {
                    assert(whole[j].index < ws.len());
                }
                lemma_build_data_shape(ws, views, views.len() as int);
                lemma_same_shape(w, with_build_data_to(ws, views, views.len() as int), next);
            }
        }
        true
    }
}

/// The macros of a workspace can be loaded and are not: it has its build data.
pub open spec fn macros_pending(lw: LoadedView) -> bool {
    lw.build_data_loaded && !lw.proc_macros_loaded
}

/// Some of the workspaces in the list can have its macros loaded.
pub open spec fn any_macros_pending(ws: Seq<LoadedView>, order: Seq<usize>) -> bool {
    exists|i: int| 0 <= i < order.len() && (#[trigger] order[i]) < ws.len() && macros_pending(ws[order[i] as int])
}

/// Those of the first `n` workspaces in the list that can have their macros loaded.
pub open spec fn pending_to(ws: Seq<LoadedView>, order: Seq<usize>, n: int) -> Seq<usize>
    decreases n,
{
    if n <= 0 {
        Seq::empty()
    } else if order[n - 1] < ws.len() && macros_pending(ws[order[n - 1] as int]) {
        pending_to(ws, order, n - 1).push(order[n - 1])
    } else {
        pending_to(ws, order, n - 1)
    }
}

/// A workspace whose macros are to be loaded, and the server for it.
pub struct SharedProcMacroWorkspace {
    pub index: usize,
    pub client: Option<Result<SharedProcMacroClient, String>>,
}

pub struct SharedProcMacroLoadRequest {
    pub generation: u64,
    pub workspaces: Vec<SharedProcMacroWorkspace>,
}

/// The macros that were loaded for workspaces.
#[derive(Debug)]
pub struct SharedProcMacroLoadResponse {
    pub generation: u64,
    pub workspaces: Vec<(usize, u64)>,
}

/// What came of macros that were loaded: they were for another state of the world; there were none;
/// they were taken over; or, at some point, a workspace for them was missing.
#[derive(Clone, Copy, Debug, PartialEq, Eq, Structural)]
pub enum MacroCommit {
    Stale,
    Empty,
    Applied,
    Missing,
}

/// The workspaces with the macros of the first `n` entries, up to the first without a workspace.
pub open spec fn with_macros_to(ws: Seq<LoadedView>, list: Seq<(usize, u64)>, n: int) -> Seq<LoadedView>
    decreases n,
{
    if n <= 0 {
        ws
    } else {
        let before = with_macros_to(ws, list, n - 1);
        let at = list[n - 1].0 as int;
        before.update(at, LoadedView { proc_macros: list[n - 1].1, proc_macros_loaded: true, ..before[at] })
    }
}

/// The first entry without a workspace, or the end of the list.
pub open spec fn first_missing(len: nat, list: Seq<(usize, u64)>) -> int
    decreases list.len(),
{
    if list.len() == 0 {
        0
    } else if first_missing(len, list.drop_last()) < list.len() - 1 || list.last().0 >= len {
        first_missing(len, list.drop_last())
    } else {
        list.len() as int
    }
}

proof fn lemma_first_missing(len: nat, list: Seq<(usize, u64)>, n: int)
    requires
        0 <= n <= list.len(),
        forall|i: int| 0 <= i < n ==> (#[trigger] list[i]).0 < len,
        n == list.len() || list[n].0 >= len,
    ensures
        first_missing(len, list) == n,
    decreases list.len(),
{
    if list.len() > 0 {
        let rest = list.drop_last();
        if n == list.len() {
            assert forall|i: int| 0 <= i < rest.len() implies (#[trigger] rest[i]).0 < len by {
                assert(list[i].0 < len);
            }
            lemma_first_missing(len, rest, rest.len() as int);
            assert(list[n - 1].0 < len);
        } else {
            assert forall|i: int| 0 <= i < n implies (#[trigger] rest[i]).0 < len by {
                assert(list[i].0 < len);
            }
            lemma_first_missing(len, rest, n);
        }
    }
}

proof fn lemma_macros_shape(ws: Seq<LoadedView>, list: Seq<(usize, u64)>, n: int)
    requires
        0 <= n <= list.len(),
        forall|i: int| 0 <= i < n ==> (#[trigger] list[i]).0 < ws.len(),
    ensures
        same_shape(with_macros_to(ws, list, n), ws),
    decreases n,
{
    if n > 0 {
        lemma_macros_shape(ws, list, n - 1);
        let before = with_macros_to(ws, list, n - 1);
        let r = with_macros_to(ws, list, n);
        assert(list[n - 1].0 < ws.len());
        assert forall|i: int| 0 <= i < r.len() implies (#[trigger] r[i]).files == ws[i].files && r[i].source_roots == ws[i].source_roots by {
            assert(before[i].files == ws[i].files);
        }
    }
}

/// A workspace whose macros are no longer valid, and have to be loaded anew.
pub open spec fn invalidated(lw: LoadedView, proc_macros: u64, state: ProcMacroLoadState) -> LoadedView {
    LoadedView {
        summary: SummaryView { proc_macro_server: false, ..lw.summary },
        proc_macros,
        proc_macros_loaded: !(state is NotYetBuilt) || !lw.has_proc_macro_paths,
        client: None,
        ..lw
    }
}

/// The workspaces, where those below `n` that share a server with the reloaded ones, and were not
/// reloaded themselves, are invalidated.
pub open spec fn invalidated_to(
    ws: Seq<LoadedView>,
    indexes: Seq<usize>,
    keys: Seq<crate::spawn_key::SpawnKeyView>,
    config: crate::spawn::SpawnConfigView,
    macros: Seq<u64>,
    state: ProcMacroLoadState,
    n: int,
) -> Seq<LoadedView> {
    Seq::new(
        ws.len(),
        |i: int|
            if i < n && !indexes.contains(i as usize) && uses_one_of(ws[i], Some(config), keys) {
                invalidated(ws[i], macros[i], state)
            } else {
                ws[i]
            },
    )
}

fn invalidate(workspace: &mut LoadedWorkspace, proc_macros: u64, not_built: bool)
    ensures
        forall|state: ProcMacroLoadState|
            (state is NotYetBuilt) == not_built ==> final(workspace)@ == #[trigger] invalidated(old(workspace)@, proc_macros, state),
{
    let ghost before = workspace@;
    workspace.proc_macros = proc_macros;
    workspace.proc_macros_loaded = !not_built || !workspace.has_proc_macro_paths;
    workspace.proc_macro_client = None;
    workspace.summary.proc_macro_server = false;
    proof {
        assert forall|state: ProcMacroLoadState| (state is NotYetBuilt) == not_built implies workspace@ == #[trigger] invalidated(
            before,
            proc_macros,
            state,
        ) by {
            assert(workspace@.summary =~= invalidated(before, proc_macros, state).summary);
            assert(workspace@ =~= invalidated(before, proc_macros, state));
        }
    }
}

/// The running servers of the first `n` workspaces, with their keys.
pub open spec fn all_clients_to(ws: Seq<LoadedView>, n: int) -> Seq<ClientView>
    decreases n,
{
    if n <= 0 {
        Seq::empty()
    } else {
        match ws[n - 1].client {
            Some(Ok(client)) => all_clients_to(ws, n - 1).push(client),
            _ => all_clients_to(ws, n - 1),
        }
    }
}

impl SharedWorld {
    /// The running servers of all workspaces.
    pub fn proc_macro_clients(&self) -> (r: Vec<SharedProcMacroClient>)
        ensures
            r@.map_values(|c: SharedProcMacroClient| c@) == all_clients_to(
                self@.base.workspaces,
                self@.base.workspaces.len() as int,
            ),
    {
        let ghost ws = self@.base.workspaces;
        let mut r: Vec<SharedProcMacroClient> = Vec::new();
        let mut i: usize = 0;
        proof {
            assert(r@.map_values(|c: SharedProcMacroClient| c@) =~= Seq::empty());
        }
        while i < self.base.workspaces.len()
            invariant
                i <= self.base.workspaces.len(),
                ws == self@.base.workspaces,
                r@.map_values(|c: SharedProcMacroClient| c@) == all_clients_to(ws, i as int),
            decreases self.base.workspaces.len() - i,
        {
            proof {
                assert(ws[i as int] == self.base.workspaces@[i as int]@);
            }
            match &self.base.workspaces[i].proc_macro_client {
                Some(Ok(client)) => {
                    let ghost before = r@.map_values(|c: SharedProcMacroClient| c@);
                    let copy = SharedProcMacroClient { key: client.key.duplicate(), client: client.client };
                    let ghost view = copy@;
                    r.push(copy);
                    proof {
                        assert(r@.map_values(|c: SharedProcMacroClient| c@) =~= before.push(view));
                    }
                },
                _ => {},
            }
            i = i + 1;
        }
        r
    }

    /// The servers of some workspaces, in the given order.
    pub fn proc_macro_clients_for(&self, workspace_indexes: &Vec<usize>) -> (r: Vec<
        Option<Result<SharedProcMacroClient, String>>,
    >)
        requires
            forall|i: int| 0 <= i < workspace_indexes@.len() ==> (#[trigger] workspace_indexes@[i]) < self@.base.workspaces.len(),
        ensures
            r@.len() == workspace_indexes@.len(),
            forall|i: int|
                0 <= i < r@.len() ==> client_view(#[trigger] r@[i]) == self@.base.workspaces[workspace_indexes@[i] as int].client,
    {
        let mut r: Vec<Option<Result<SharedProcMacroClient, String>>> = Vec::new();
        let mut i: usize = 0;
        while i < workspace_indexes.len()
            invariant
                i <= workspace_indexes.len(),
                r@.len() == i,
                forall|j: int| 0 <= j < workspace_indexes@.len() ==> (#[trigger] workspace_indexes@[j]) < self@.base.workspaces.len(),
                forall|j: int|
                    0 <= j < i ==> client_view(#[trigger] r@[j]) == self@.base.workspaces[workspace_indexes@[j] as int].client,
            decreases workspace_indexes.len() - i,
        {
            let index: usize = workspace_indexes[i];
            proof {
                assert(self@.base.workspaces[index as int] == self.base.workspaces@[index as int]@);
            }
            r.push(duplicate_client(&self.base.workspaces[index].proc_macro_client));
            i = i + 1;
        }
        r
    }

    /// Whether some of the workspaces has no build data yet.
    pub fn build_data_pending(&self, workspace_indexes: &Vec<usize>) -> (r: bool)
        ensures
            r == exists|i: int|
                0 <= i < workspace_indexes@.len() && (#[trigger] workspace_indexes@[i]) < self@.base.workspaces.len()
                    && !self@.base.workspaces[workspace_indexes@[i] as int].build_data_loaded,
    {
        let mut i: usize = 0;
        while i < workspace_indexes.len()
            invariant
                i <= workspace_indexes.len(),
                forall|j: int|
                    0 <= j < i && (#[trigger] workspace_indexes@[j]) < self@.base.workspaces.len()
                        ==> self@.base.workspaces[workspace_indexes@[j] as int].build_data_loaded,
            decreases workspace_indexes.len() - i,
        {
            let index: usize = workspace_indexes[i];
            if index < self.base.workspaces.len() {
                proof {
                    assert(self@.base.workspaces[index as int] == self.base.workspaces@[index as int]@);
                }
                if !self.base.workspaces[index].build_data_loaded {
                    proof {
                        assert(workspace_indexes@[i as int] < self@.base.workspaces.len());
                    }
                    return true;
                }
            }
            i = i + 1;
        }
        false
    }

    fn is_pending(&self, index: usize) -> (r: bool)
        ensures
            r == (index < self@.base.workspaces.len() && macros_pending(self@.base.workspaces[index as int])),
    {
        if index < self.base.workspaces.len() {
            let workspace = &self.base.workspaces[index];
            proof {
                assert(self@.base.workspaces[index as int] == workspace@);
            }
            workspace.build_data_loaded && !workspace.proc_macros_loaded
        } else {
            false
        }
    }

    /// Whether some of the workspaces that an operation is about can have its macros loaded.
    pub fn proc_macros_pending(
        &self,
        workspace_indexes: &Vec<usize>,
        reload_keys: Option<&Vec<ProcMacroSpawnKey>>,
        config: Option<&SpawnConfig>,
    ) -> (r: bool)
        ensures
            r == any_macros_pending(
                self@.base.workspaces,
                macro_scope(self@.base.workspaces, workspace_indexes@, keys_view(reload_keys), config_view(config)),
            ),
    {
        let order = self.proc_macro_indexes(workspace_indexes, reload_keys, config);
        let ghost ws = self@.base.workspaces;
        let mut i: usize = 0;
        while i < order.len()
            invariant
                i <= order.len(),
                ws == self@.base.workspaces,
                is_order(order@, ws, workspace_indexes@, keys_view(reload_keys), config_view(config)),
                forall|j: int| 0 <= j < i && (#[trigger] order@[j]) < ws.len() ==> !macros_pending(ws[order@[j] as int]),
            decreases order.len() - i,
        {
            if self.is_pending(order[i]) {
                proof {
                    let scope = macro_scope(ws, workspace_indexes@, keys_view(reload_keys), config_view(config));
                    assert(order@.contains(order@[i as int]));
                    lemma_order_is_scope(
                        order@,
                        ws,
                        workspace_indexes@,
                        keys_view(reload_keys),
                        config_view(config),
                        order@[i as int],
                    );
                    let k = scope.index_of(order@[i as int]);
                    assert(scope[k] == order@[i as int]);
                }
                return true;
            }
            i = i + 1;
        }
        proof {
            let scope = macro_scope(ws, workspace_indexes@, keys_view(reload_keys), config_view(config));
            if any_macros_pending(ws, scope) {
                let k = choose|k: int| 0 <= k < scope.len() && (#[trigger] scope[k]) < ws.len() && macros_pending(ws[scope[k] as int]);
                assert(scope.contains(scope[k]));
                lemma_order_is_scope(
                    order@,
                    ws,
                    workspace_indexes@,
                    keys_view(reload_keys),
                    config_view(config),
                    scope[k],
                );
                let j = order@.index_of(scope[k]);
                assert(order@[j] == scope[k]);
            }
        }
        false
    }

    /// What macros are to be loaded, if any are.
    pub fn proc_macro_load_request(
        &self,
        workspace_indexes: &Vec<usize>,
        reload_keys: Option<&Vec<ProcMacroSpawnKey>>,
        config: Option<&SpawnConfig>,
    ) -> (r: Option<SharedProcMacroLoadRequest>)
        ensures
            exists|order: Seq<usize>|
                {
                    let pending = #[trigger] pending_to(self@.base.workspaces, order, order.len() as int);
                    &&& is_order(order, self@.base.workspaces, workspace_indexes@, keys_view(reload_keys), config_view(config))
                    &&& r is Some <==> pending.len() > 0
                    &&& r matches Some(request) ==> {
                        &&& request.generation == self@.workspace_generation
                        &&& request.workspaces@.map_values(|w: SharedProcMacroWorkspace| w.index) == pending
                        &&& forall|i: int|
                            0 <= i < pending.len() ==> client_view((#[trigger] request.workspaces@[i]).client)
                                == self@.base.workspaces[pending[i] as int].client
                    }
                },
    {
        let order = self.proc_macro_indexes(workspace_indexes, reload_keys, config);
        let ghost ws = self@.base.workspaces;
        let mut workspaces: Vec<SharedProcMacroWorkspace> = Vec::new();
        let mut i: usize = 0;
        proof {
            assert(workspaces@.map_values(|w: SharedProcMacroWorkspace| w.index) =~= Seq::empty());
        }
        while i < order.len()
            invariant
                i <= order.len(),
                ws == self@.base.workspaces,
                workspaces@.map_values(|w: SharedProcMacroWorkspace| w.index) == pending_to(ws, order@, i as int),
                forall|j: int|
                    0 <= j < workspaces@.len() ==> client_view((#[trigger] workspaces@[j]).client) == ws[workspaces@[j].index as int].client,
            decreases order.len() - i,
        {
            let index: usize = order[i];
            if self.is_pending(index) {
                let ghost before = workspaces@.map_values(|w: SharedProcMacroWorkspace| w.index);
                proof {
                    assert(ws[index as int] == self.base.workspaces@[index as int]@);
                }
                workspaces.push(
                    SharedProcMacroWorkspace { index, client: duplicate_client(&self.base.workspaces[index].proc_macro_client) },
                );
                proof {
                    assert(workspaces@.map_values(|w: SharedProcMacroWorkspace| w.index) =~= before.push(index));
                }
            }
            i = i + 1;
        }
        let ghost pending = pending_to(ws, order@, order@.len() as int);
        let ghost indexes = workspaces@.map_values(|w: SharedProcMacroWorkspace| w.index);
        proof {
            assert(indexes.len() == workspaces@.len());
            assert forall|j: int| 0 <= j < pending.len() implies client_view((#[trigger] workspaces@[j]).client)
                == ws[pending[j] as int].client by {
                assert(indexes[j] == workspaces@[j].index);
            }
        }
        if workspaces.len() == 0 {
            None
        } else {
            Some(SharedProcMacroLoadRequest { generation: self.workspace_generation, workspaces })
        }
    }

    /// Takes over macros that were loaded.
    pub fn commit_proc_macro_load(&mut self, response: &SharedProcMacroLoadResponse) -> (r: MacroCommit)
        ensures
            r is Stale <==> response.generation != old(self)@.workspace_generation,
            r is Empty <==> !(r is Stale) && response.workspaces@.len() == 0,
            r is Stale || r is Empty ==> final(self)@ == old(self)@,
            !(r is Stale) && !(r is Empty) ==> {
                let n = first_missing(old(self)@.base.workspaces.len(), response.workspaces@);
                &&& r is Applied <==> n == response.workspaces@.len()
                &&& final(self)@ == with_loaded(old(self)@, with_macros_to(old(self)@.base.workspaces, response.workspaces@, n))
            },
            forall|next: u32| old(self)@.wf(next) ==> #[trigger] final(self)@.wf(next),
    {
        let ghost w = self@;
        let ghost ws = self@.base.workspaces;
        let list = &response.workspaces;
        if response.generation != self.workspace_generation {
            return MacroCommit::Stale;
        }
        if list.len() == 0 {
            return MacroCommit::Empty;
        }
        let mut i: usize = 0;
        let mut missing = false;
        while i < list.len() && !missing
            invariant
                i <= list.len(),
                list == &response.workspaces,
                self.base.workspaces.len() == ws.len(),
                ws == w.base.workspaces,
                self@ == with_loaded(w, with_macros_to(ws, list@, i as int)),
                with_macros_to(ws, list@, i as int).len() == ws.len(),
                forall|j: int| 0 <= j < i ==> (#[trigger] list@[j]).0 < ws.len(),
                missing ==> i < list.len() && list@[i as int].0 >= ws.len(),
            decreases list.len() - i, !missing as int,
        {
            let at: usize = list[i].0;
            if at < self.base.workspaces.len() {
                let ghost here = self@.base.workspaces;
                proof {
                    assert(here[at as int] == self.base.workspaces@[at as int]@);
                }
                self.base.workspaces[at].proc_macros = list[i].1;
                self.base.workspaces[at].proc_macros_loaded = true;
                proof {
                    assert(self.base.workspaces@[at as int]@ =~= (LoadedView {
                        proc_macros: list@[i as int].1,
                        proc_macros_loaded: true,
                        ..here[at as int]
                    }));
                    assert(self@.base.workspaces =~= with_macros_to(ws, list@, i + 1));
                }
                i = i + 1;
            } else {
                missing = true;
            }
        }
        proof {
            lemma_first_missing(ws.len(), list@, i as int);
            lemma_macros_shape(ws, list@, i as int);
            assert forall|next: u32| w.wf(next) implies #[trigger] self@.wf(next) by {
                lemma_same_shape(w, with_macros_to(ws, list@, i as int), next);
            }
        }
        if missing {
            MacroCommit::Missing
        } else {
            MacroCommit::Applied
        }
    }

    /// Invalidates the macros of workspaces that share a server with reloaded ones. `macros` gives
    /// the number of the empty list of macros for each workspace.
    pub fn invalidate_proc_macro_groups(
        &mut self,
        workspace_indexes: &Vec<usize>,
        reload_keys: &Vec<ProcMacroSpawnKey>,
        config: &SpawnConfig,
        macros: &Vec<u64>,
        state: ProcMacroLoadState,
    )
        requires
            macros@.len() == old(self)@.base.workspaces.len(),
        ensures
            final(self)@ == with_loaded(
                old(self)@,
                invalidated_to(
                    old(self)@.base.workspaces,
                    workspace_indexes@,
                    reload_keys.deep_view(),
                    config@,
                    macros@,
                    state,
                    old(self)@.base.workspaces.len() as int,
                ),
            ),
            same_shape(final(self)@.base.workspaces, old(self)@.base.workspaces),
    {
        let ghost w = self@;
        let ghost ws = self@.base.workspaces;
        let ghost keys = reload_keys.deep_view();
        let not_built = match state {
            ProcMacroLoadState::NotYetBuilt => true,
            _ => false,
        };
        let mut i: usize = 0;
        proof {
            assert(invalidated_to(ws, workspace_indexes@, keys, config@, macros@, state, 0) =~= ws);
        }
        while i < self.base.workspaces.len()
            invariant
                i <= self.base.workspaces.len(),
                self.base.workspaces.len() == ws.len(),
                ws == w.base.workspaces,
                macros@.len() == ws.len(),
                keys == reload_keys.deep_view(),
                not_built == (state is NotYetBuilt),
                self@ == with_loaded(w, invalidated_to(ws, workspace_indexes@, keys, config@, macros@, state, i as int)),
            decreases self.base.workspaces.len() - i,
        {
            let ghost here = self@.base.workspaces;
            proof {
                assert(here[i as int] == ws[i as int]);
                assert(here[i as int] == self.base.workspaces@[i as int]@);
            }
            if !contains_index(workspace_indexes, i) && uses(&self.base.workspaces[i], Some(config), reload_keys) {
                invalidate(&mut self.base.workspaces[i], macros[i], not_built);
                proof {
                    assert(self.base.workspaces@[i as int]@ == invalidated(ws[i as int], macros@[i as int], state));
                    assert(self@.base.workspaces =~= here.update(i as int, invalidated(ws[i as int], macros@[i as int], state)));
                }
            }
            proof {
                assert(self@.base.workspaces =~= invalidated_to(ws, workspace_indexes@, keys, config@, macros@, state, i + 1));
            }
            i = i + 1;
        }
    }
}

/// The servers in use are those that some workspace runs on.
pub proof fn law_servers_in_use_are_those_of_workspaces(ws: Seq<LoadedView>, n: int, client: ClientView)
    requires
        0 <= n <= ws.len(),
    ensures
        all_clients_to(ws, n).contains(client) <==> exists|i: int|
            0 <= i < n && (#[trigger] ws[i]).client == Some(Ok::<ClientView, Seq<char>>(client)),
    decreases n,
{
    if n > 0 {
        law_servers_in_use_are_those_of_workspaces(ws, n - 1, client);
        let before = all_clients_to(ws, n - 1);
        let all = all_clients_to(ws, n);
        if before.contains(client) {
            assert(all[before.index_of(client)] == client);
        }
        if ws[n - 1].client == Some(Ok::<ClientView, Seq<char>>(client)) {
            assert(all[before.len() as int] == client);
        }
        if all.contains(client) && !before.contains(client) {
            let at = all.index_of(client);
            if at < before.len() {
                assert(before[at] == client);
            }
            assert(ws[n - 1].client == Some(Ok::<ClientView, Seq<char>>(client)));
        }
    }
}

} // verus!
