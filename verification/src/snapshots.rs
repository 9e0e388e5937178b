//! What can be told of the backends from outside.
use crate::base::{SummaryView, WorkspaceSummary};
use crate::keys::SharedAnalyzerBackendKey;
use crate::open_files::summaries_to;
use crate::ordered::{
    ascending, lemma_ascending_distinct, lemma_ascending_unique, lemma_sorted_exists, lemma_sorted_keys, listed, sorted_keys,
};
use crate::registry::{BackendEntry, SharedAnalyzerRegistry};
use crate::world::{SharedWorld, WorldView};
use vstd::prelude::*;

verus! {

/// Whether a backend's world could be looked at.
#[derive(Clone, Copy, Debug, PartialEq, Eq, Structural)]
pub enum BackendSnapshotState {
    Ready,
    Busy,
    Poisoned,
}

/// A backend as it is: of a world that could not be looked at only its sessions are known.
#[derive(Debug)]
pub struct SharedAnalyzerBackendSnapshot {
    pub key: SharedAnalyzerBackendKey,
    pub state: BackendSnapshotState,
    pub client_sessions: usize,
    pub overlay_sessions: Option<usize>,
    pub overlay_files: Option<usize>,
    pub workspace_loads: Option<Vec<WorkspaceSummary>>,
}

/// The overlay files of the first `n` sessions.
pub open spec fn overlay_files_to(w: WorldView, n: int) -> nat
    decreases n,
{
    if n <= 0 {
        0
    } else {
        overlay_files_to(w, n - 1) + w.overlays[sorted_keys::<u64>(w.overlays.dom())[n - 1]].path_by_file.dom().len()
    }
}

pub open spec fn overlay_file_count(w: WorldView) -> nat {
    overlay_files_to(w, sorted_keys::<u64>(w.overlays.dom()).len() as int)
}

pub open spec fn summary_views(list: Seq<WorkspaceSummary>) -> Seq<SummaryView> {
    list.map_values(|s: WorkspaceSummary| s@)
}

pub open spec fn loads_view(loads: Option<Vec<WorkspaceSummary>>) -> Option<Seq<SummaryView>> {
    match loads {
        Some(list) => Some(summary_views(list@)),
        None => None,
    }
}

impl SharedWorld {
    /// The sessions with an overlay.
    pub fn active_overlay_sessions(&self) -> (r: usize)
        ensures
            r == self@.overlays.dom().len(),
    {
        let count = self.overlays.len();
        proof {
            self.overlays.lemma_len();
            assert(self@.overlays.dom() =~= self.overlays@.dom());
        }
        count
    }

    /// The files in all overlays. Where there are more than can be counted there is no number.
    pub fn overlay_files(&self) -> (r: Option<usize>)
        ensures
            r is Some <==> overlay_file_count(self@) <= usize::MAX,
            r matches Some(count) ==> count == overlay_file_count(self@),
    {
        let ghost w = self@;
        let n = self.overlays.len();
        let mut count: usize = 0;
        let mut i: usize = 0;
        proof {
            lemma_sorted_keys(self.overlays);
            assert(w.overlays.dom() =~= self.overlays@.dom());
        }
        while i < n
            invariant
                i <= n,
                n == self.overlays.keys().len(),
                listed(self.overlays),
                w == self@,
                self.overlays.keys() == sorted_keys::<u64>(w.overlays.dom()),
                count == overlay_files_to(w, i as int),
            decreases n - i,
        {
            let overlay = self.overlays.value_at(i);
            let here = overlay.path_by_file.len();
            proof {
                assert(self.overlays@.contains_key(self.overlays.keys()[i as int]));
                overlay.path_by_file.lemma_len();
                assert(w.overlays[self.overlays.keys()[i as int]] == overlay@);
                assert(overlay@.path_by_file.dom() =~= overlay.path_by_file@.dom());
                lemma_files_grow(w, i + 1, n as int);
            }
            if here > usize::MAX - count {
                return None;
            }
            count = count + here;
            i = i + 1;
        }
        Some(count)
    }
}

proof fn lemma_files_grow(w: WorldView, m: int, n: int)
    requires
        m <= n,
    ensures
        overlay_files_to(w, m) <= overlay_files_to(w, n),
    decreases n - m,
{
    if m < n {
        lemma_files_grow(w, m, n - 1);
    }
}

/// What a world shows of a backend.
pub enum WorldSight<'a> {
    Ready(&'a SharedWorld),
    Busy,
    Poisoned,
}

/// What is told of a backend, given its entry and what its world shows. The count of overlay files
/// of a world that was looked at is missing only where it does not fit.
pub open spec fn is_snapshot(r: SharedAnalyzerBackendSnapshot, entry: BackendEntry, world: WorldSight) -> bool {
    &&& r.key@ == entry.key@
    &&& r.client_sessions == entry.client_sessions
    &&& match world {
        WorldSight::Ready(world) => {
            &&& r.state == BackendSnapshotState::Ready
            &&& r.overlay_sessions == Some(world@.overlays.dom().len() as usize)
            &&& overlay_file_count(world@) <= usize::MAX ==> r.overlay_files == Some(overlay_file_count(world@) as usize)
            &&& overlay_file_count(world@) > usize::MAX ==> r.overlay_files is None
            &&& loads_view(r.workspace_loads) == Some(
                summaries_to(world@.base.workspaces, entry.view@.workspaces, entry.view@.workspaces.len() as int),
            )
        },
        WorldSight::Busy => r.state == BackendSnapshotState::Busy && r.overlay_sessions is None && r.overlay_files is None
            && r.workspace_loads is None,
        WorldSight::Poisoned => r.state == BackendSnapshotState::Poisoned && r.overlay_sessions is None
            && r.overlay_files is None && r.workspace_loads is None,
    }
}

pub fn backend_snapshot(entry: BackendEntry, world: WorldSight) -> (r: SharedAnalyzerBackendSnapshot)
    ensures
        is_snapshot(r, entry, world),
{
    match world {
        WorldSight::Ready(world) => {
            let sessions = world.active_overlay_sessions();
            let files = world.overlay_files();
            let loads = world.workspace_summaries(&entry.view);
            SharedAnalyzerBackendSnapshot {
                key: entry.key,
                state: BackendSnapshotState::Ready,
                client_sessions: entry.client_sessions,
                overlay_sessions: Some(sessions),
                overlay_files: files,
                workspace_loads: Some(loads),
            }
        },
        WorldSight::Busy => SharedAnalyzerBackendSnapshot {
            key: entry.key,
            state: BackendSnapshotState::Busy,
            client_sessions: entry.client_sessions,
            overlay_sessions: None,
            overlay_files: None,
            workspace_loads: None,
        },
        WorldSight::Poisoned => SharedAnalyzerBackendSnapshot {
            key: entry.key,
            state: BackendSnapshotState::Poisoned,
            client_sessions: entry.client_sessions,
            overlay_sessions: None,
            overlay_files: None,
            workspace_loads: None,
        },
    }
}

impl SharedAnalyzerRegistry {
    /// What is told of all backends, by ascending key, where `worlds` holds what the world of each
    /// shows.
    pub fn backend_snapshots(entries: Vec<BackendEntry>, worlds: Vec<WorldSight>) -> (r: Vec<SharedAnalyzerBackendSnapshot>)
        requires
            entries@.len() == worlds@.len(),
        ensures
            r@.len() == entries@.len(),
            forall|i: int| 0 <= i < r@.len() ==> is_snapshot(#[trigger] r@[i], entries@[i], worlds@[i]),
            (forall|i: int| 0 <= i < entries@.len() ==> (#[trigger] entries@[i]).client_sessions >= 1) ==> forall|i: int|
                0 <= i < r@.len() ==> (#[trigger] r@[i]).client_sessions >= 1,
    {
        let ghost all = entries@;
        let ghost sights = worlds@;
        let mut entries = entries;
        let mut worlds = worlds;
        let mut r: Vec<SharedAnalyzerBackendSnapshot> = Vec::new();
        proof {
            assert(all.skip(0) =~= all);
            assert(sights.skip(0) =~= sights);
        }
        while entries.len() > 0
            invariant
                all.len() == sights.len(),
                r@.len() <= all.len(),
                entries@ == all.skip(r@.len() as int),
                worlds@ == sights.skip(r@.len() as int),
                forall|i: int| 0 <= i < r@.len() ==> is_snapshot(#[trigger] r@[i], all[i], sights[i]),
            decreases entries.len(),
        {
            let entry = entries.remove(0);
            let world = worlds.remove(0);
            proof {
                assert(entries@ =~= all.skip(r@.len() as int + 1));
                assert(worlds@ =~= sights.skip(r@.len() as int + 1));
            }
            r.push(backend_snapshot(entry, world));
        }
        r
    }

    /// The workspaces of all backends that could be looked at.
    pub fn workspace_loads(snapshots: Vec<SharedAnalyzerBackendSnapshot>) -> (r: Vec<WorkspaceSummary>)
        ensures
            summary_views(r@) == all_loads(snapshots@, snapshots@.len() as int),
    {
        let ghost all = snapshots@;
        let mut snapshots = snapshots;
        let mut r: Vec<WorkspaceSummary> = Vec::new();
        let ghost mut i: int = 0;
        proof {
            assert(all.skip(0) =~= all);
            assert(summary_views(r@) =~= Seq::empty());
        }
        while snapshots.len() > 0
            invariant
                0 <= i <= all.len(),
                snapshots@ == all.skip(i),
                summary_views(r@) == all_loads(all, i),
            decreases snapshots.len(),
        {
            let snapshot = snapshots.remove(0);
            let ghost before = r@;
            proof {
                assert(snapshot == all[i]);
                assert(snapshots@ =~= all.skip(i + 1));
            }
            match snapshot.workspace_loads {
                Some(loads) => {
                    let mut loads = loads;
                    let ghost more = loads@;
                    r.append(&mut loads);
                    proof {
                        assert(summary_views(r@) =~= summary_views(before) + summary_views(more));
                    }
                },
                None => {
                    proof {
                        assert(summary_views(r@) =~= summary_views(before) + Seq::<SummaryView>::empty());
                    }
                },
            }
            proof {
                i = i + 1;
            }
        }
        proof {
            assert(i == all.len());
        }
        r
    }
}

/// The workspaces of the first `n` backends.
pub open spec fn all_loads(snapshots: Seq<SharedAnalyzerBackendSnapshot>, n: int) -> Seq<SummaryView>
    decreases n,
{
    if n <= 0 {
        Seq::empty()
    } else {
        all_loads(snapshots, n - 1) + (match loads_view(snapshots[n - 1].workspace_loads) {
            Some(loads) => loads,
            None => Seq::empty(),
        })
    }
}

/// Of the first `n` workspaces, those that were loaded have their build data.
pub open spec fn build_data_complete(w: WorldView, workspaces: Seq<Result<usize, String>>, n: int) -> bool {
    forall|i: int|
        0 <= i < n ==> ((#[trigger] workspaces[i]) matches Ok(index) ==> w.base.workspaces[index as int].build_data_loaded)
}

impl SharedWorld {
    pub fn workspace_summary(&self, index: usize) -> (r: Option<&WorkspaceSummary>)
        ensures
            r is Some <==> index < self@.base.workspaces.len(),
            r matches Some(summary) ==> summary@ == self@.base.workspaces[index as int].summary,
    {
        if index < self.base.workspaces.len() {
            proof {
                assert(self@.base.workspaces[index as int] == self.base.workspaces@[index as int]@);
            }
            Some(&self.base.workspaces[index].summary)
        } else {
            None
        }
    }

    /// The projects that a session works on, or why one could not be loaded, and whether the build
    /// data of all that were loaded is there.
    pub fn session_workspaces(&self, workspaces: &Vec<Result<usize, String>>) -> (r: (Vec<Result<u64, String>>, bool))
        requires
            forall|i: int|
                0 <= i < workspaces@.len() ==> ((#[trigger] workspaces@[i]) matches Ok(index) ==> index < self@.base.workspaces.len()),
        ensures
            r.0@.len() == workspaces@.len(),
            forall|i: int|
                0 <= i < workspaces@.len() ==> match #[trigger] workspaces@[i] {
                    Ok(index) => r.0@[i] == Ok::<u64, String>(self@.base.workspaces[index as int].project),
                    Err(error) => r.0@[i] matches Err(words) && words@ == error@,
                },
            r.1 == build_data_complete(self@, workspaces@, workspaces@.len() as int),
    {
        let ghost w = self@;
        let mut list: Vec<Result<u64, String>> = Vec::new();
        let mut complete = true;
        let mut i: usize = 0;
        while i < workspaces.len()
            invariant
                i <= workspaces.len(),
                w == self@,
                w.base.workspaces.len() == self.base.workspaces@.len(),
                forall|j: int|
                    0 <= j < workspaces@.len() ==> ((#[trigger] workspaces@[j]) matches Ok(index) ==> index < w.base.workspaces.len()),
                list@.len() == i,
                forall|j: int|
                    0 <= j < i ==> match #[trigger] workspaces@[j] {
                        Ok(index) => list@[j] == Ok::<u64, String>(w.base.workspaces[index as int].project),
                        Err(error) => list@[j] matches Err(words) && words@ == error@,
                    },
                complete == build_data_complete(w, workspaces@, i as int),
            decreases workspaces.len() - i,
        {
            let ghost one = workspaces@[i as int];
            match &workspaces[i] {
                Ok(index) => {
                    proof {
                        assert(one == Ok::<usize, String>(*index));
                        assert(w.base.workspaces[*index as int] == self.base.workspaces@[*index as int]@);
                    }
                    if !self.base.workspaces[*index].build_data_loaded {
                        complete = false;
                    }
                    list.push(Ok(self.base.workspaces[*index].project));
                },
                Err(error) => {
                    list.push(Err(error.clone()));
                },
            }
            i = i + 1;
        }
        (list, complete)
    }
}

/// The overlay files of a world are those of each session: without overlays there are none, and one
/// session's overlay accounts for the files in it.
pub proof fn law_overlay_files_are_those_of_each_session(w: WorldView, session: u64)
    requires
        w.overlays.dom().finite(),
    ensures
        w.overlays.dom().is_empty() ==> overlay_file_count(w) == 0,
        w.overlays.contains_key(session) ==> overlay_file_count(w) == overlay_file_count(
            WorldView { overlays: w.overlays.remove(session), ..w },
        ) + w.overlays[session].path_by_file.dom().len(),
{
    let dom = w.overlays.dom();
    lemma_sorted_exists::<u64>(dom);
    let keys = sorted_keys::<u64>(dom);
    if dom.is_empty() {
        if keys.len() > 0 {
            assert(keys.to_set().contains(keys[0]));
        }
    }
    if w.overlays.contains_key(session) {
        let v = WorldView { overlays: w.overlays.remove(session), ..w };
        assert(v.overlays.dom() =~= dom.remove(session));
        lemma_sorted_exists::<u64>(v.overlays.dom());
        let rest = sorted_keys::<u64>(v.overlays.dom());
        assert(keys.to_set().contains(session));
        let at = keys.index_of(session);
        lemma_ascending_distinct::<u64>(keys);
        let cut = keys.remove(at);
        assert(ascending::<u64>(cut));
        assert forall|k: u64| #[trigger] cut.contains(k) <==> rest.contains(k) by {
            assert(rest.to_set().contains(k) <==> rest.contains(k));
            assert(keys.to_set().contains(k) <==> keys.contains(k));
            if cut.contains(k) {
                let i = cut.index_of(k);
                if i < at {
                    assert(keys[i] == k);
                } else {
                    assert(keys[i + 1] == k);
                }
            }
            if keys.contains(k) && k != session {
                let i = keys.index_of(k);
                if i < at {
                    assert(cut[i] == k);
                } else {
                    assert(cut[i - 1] == k);
                }
            }
        }
        lemma_ascending_unique::<u64>(cut, rest);
        lemma_files_without(w, v, session, at, keys.len() as int);
    }
}

proof fn lemma_files_without(w: WorldView, v: WorldView, session: u64, at: int, n: int)
    requires
        v == (WorldView { overlays: w.overlays.remove(session), ..w }),
        0 <= at < sorted_keys::<u64>(w.overlays.dom()).len(),
        0 <= n <= sorted_keys::<u64>(w.overlays.dom()).len(),
        sorted_keys::<u64>(w.overlays.dom())[at] == session,
        sorted_keys::<u64>(v.overlays.dom()) == sorted_keys::<u64>(w.overlays.dom()).remove(at),
        forall|i: int, j: int|
            0 <= i < j < sorted_keys::<u64>(w.overlays.dom()).len() ==> #[trigger] sorted_keys::<u64>(w.overlays.dom())[i]
                != #[trigger] sorted_keys::<u64>(w.overlays.dom())[j],
    ensures
        n <= at ==> overlay_files_to(w, n) == overlay_files_to(v, n),
        n > at ==> overlay_files_to(w, n) == overlay_files_to(v, n - 1) + w.overlays[session].path_by_file.dom().len(),
    decreases n,
{
    if n > 0 {
        lemma_files_without(w, v, session, at, n - 1);
        let keys = sorted_keys::<u64>(w.overlays.dom());
        let rest = sorted_keys::<u64>(v.overlays.dom());
        let k = keys[n - 1];
        if n <= at {
            assert(rest[n - 1] == k);
            assert(keys[n - 1] != keys[at]);
            assert(v.overlays[k] == w.overlays[k]);
        } else if n - 1 > at {
            assert(rest[n - 2] == k);
            assert(keys[at] != keys[n - 1]);
            assert(v.overlays[k] == w.overlays[k]);
        }
    }
}

/// The workspaces that are told are those of each backend that could be looked at.
pub proof fn law_loads_of_all_backends_are_told(snapshots: Seq<SharedAnalyzerBackendSnapshot>, n: int, summary: SummaryView)
    requires
        0 <= n <= snapshots.len(),
    ensures
        all_loads(snapshots, n).contains(summary) <==> exists|i: int, k: int|
            0 <= i < n && snapshots[i].workspace_loads is Some && 0 <= k < snapshots[i].workspace_loads->0@.len()
                && #[trigger] snapshots[i].workspace_loads->0@[k]@ == summary,
        n > 0 ==> all_loads(snapshots, n).len() == all_loads(snapshots, n - 1).len() + (match snapshots[n - 1].workspace_loads {
            Some(list) => list@.len(),
            None => 0,
        }),
    decreases n,
{
    if n > 0 {
        law_loads_of_all_backends_are_told(snapshots, n - 1, summary);
        let before = all_loads(snapshots, n - 1);
        let after = all_loads(snapshots, n);
        let own = match loads_view(snapshots[n - 1].workspace_loads) {
            Some(loads) => loads,
            None => Seq::empty(),
        };
        assert(after == before + own);
        if after.contains(summary) {
            let at = after.index_of(summary);
            if at < before.len() {
                assert(before[at] == summary);
                let (i, k) = choose|i: int, k: int|
                    0 <= i < n - 1 && snapshots[i].workspace_loads is Some && 0 <= k < snapshots[i].workspace_loads->0@.len()
                        && #[trigger] snapshots[i].workspace_loads->0@[k]@ == summary;
                assert(snapshots[i].workspace_loads->0@[k]@ == summary);
            } else {
                let k = at - before.len();
                assert(own[k] == summary);
                assert(snapshots[n - 1].workspace_loads->0@[k]@ == summary);
            }
        }
        if exists|i: int, k: int|
            0 <= i < n && snapshots[i].workspace_loads is Some && 0 <= k < snapshots[i].workspace_loads->0@.len()
                && #[trigger] snapshots[i].workspace_loads->0@[k]@ == summary {
            let (i, k) = choose|i: int, k: int|
                0 <= i < n && snapshots[i].workspace_loads is Some && 0 <= k < snapshots[i].workspace_loads->0@.len()
                    && #[trigger] snapshots[i].workspace_loads->0@[k]@ == summary;
            if i < n - 1 {
                assert(before.contains(summary));
                let at = before.index_of(summary);
                assert(after[at] == summary);
            } else {
                assert(own[k] == summary);
                assert(after[before.len() + k] == summary);
            }
        }
    }
}

/// A backend is told of with its key and its sessions. Only of a world that could be looked at the
/// overlays and workspaces are told, as they are there.
pub proof fn law_backend_is_told_as_it_is(r: SharedAnalyzerBackendSnapshot, entry: BackendEntry, world: WorldSight)
    requires
        is_snapshot(r, entry, world),
    ensures
        r.key@ == entry.key@,
        r.client_sessions == entry.client_sessions,
        r.state == BackendSnapshotState::Ready <==> world is Ready,
        r.state == BackendSnapshotState::Busy <==> world is Busy,
        r.state == BackendSnapshotState::Poisoned <==> world is Poisoned,
        r.overlay_sessions is Some <==> world is Ready,
        r.workspace_loads is Some <==> world is Ready,
        !(world is Ready) ==> r.overlay_files is None,
        world matches WorldSight::Ready(w) ==> r.overlay_sessions == Some(w@.overlays.dom().len() as usize) && (r.overlay_files
            matches Some(count) ==> count == overlay_file_count(w@)),
{
}

} // verus!
