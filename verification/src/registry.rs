//! The worlds, views and loads that sessions share.
//!
//! A world or a view is counted by the sessions that use it and goes with the last of them. A
//! workspace is loaded once at a time: the first session to ask leads, the others follow. Worlds,
//! loads and operations are known by number.
use crate::keys::{
    BackendKeyView, SharedAnalyzerBackendKey, SharedAnalyzerWorldKey, WorldKeyView,
};
use crate::operations::{
    OperationResult, OperationWait, OperationsView, ReloadView, ResultView, SharedAnalyzerOperationToken,
    SharedOperations, result_view, without,
};
use crate::ordered::{lemma_sorted_keys, listed, sorted_keys, OrderedKey, OrderedMap, Relation};
use crate::spawn_key::ProcMacroSpawnKey;
use crate::tokens::{compare, lemma_tokens_injective, same, write_field, Tokens};
use crate::view::{WorkspaceView, WorkspaceViewModel};
use vstd::prelude::*;

verus! {

/// A project that is loaded into a world.
#[derive(Debug)]
pub struct SharedAnalyzerWorkspaceLoadKey {
    pub world: SharedAnalyzerWorldKey,
    pub project: String,
}

#[verifier::ext_equal]
pub struct WorkspaceLoadKeyView {
    pub world: WorldKeyView,
    pub project: Seq<char>,
}

type WorkspaceLoadKeyFields = (SharedAnalyzerWorldKey, String);

impl DeepView for SharedAnalyzerWorkspaceLoadKey {
    type V = WorkspaceLoadKeyView;

    open spec fn deep_view(&self) -> WorkspaceLoadKeyView {
        WorkspaceLoadKeyView { world: self.world.deep_view(), project: self.project@ }
    }
}

impl View for SharedAnalyzerWorkspaceLoadKey {
    type V = WorkspaceLoadKeyView;

    open spec fn view(&self) -> WorkspaceLoadKeyView {
        self.deep_view()
    }
}

impl Tokens for SharedAnalyzerWorkspaceLoadKey {
    open spec fn tokens(model: WorkspaceLoadKeyView) -> Seq<u32> {
        WorkspaceLoadKeyFields::tokens((model.world, model.project))
    }

    proof fn split(a: WorkspaceLoadKeyView, b: WorkspaceLoadKeyView, x: Seq<u32>, y: Seq<u32>) {
        WorkspaceLoadKeyFields::split((a.world, a.project), (b.world, b.project), x, y);
    }

    fn write(&self, out: &mut Vec<u32>) {
        let ghost r1 = <String as Tokens>::tokens(self.project.deep_view());
        write_field(&self.world, out, Ghost(r1));
        self.project.write(out);
    }

    fn duplicate(&self) -> (r: Self) {
        SharedAnalyzerWorkspaceLoadKey { world: self.world.duplicate(), project: self.project.clone() }
    }
}

impl OrderedKey for SharedAnalyzerWorkspaceLoadKey {
    open spec fn rank(model: WorkspaceLoadKeyView) -> Seq<u32> {
        <SharedAnalyzerWorkspaceLoadKey as Tokens>::tokens(model)
    }

    proof fn rank_injective(a: WorkspaceLoadKeyView, b: WorkspaceLoadKeyView) {
        lemma_tokens_injective::<SharedAnalyzerWorkspaceLoadKey>(a, b);
    }

    fn relation(&self, other: &Self) -> (r: Relation) {
        compare(self, other)
    }
}

/// How a load ended: the index of the workspace, or why it failed.
pub type LoadResult = Result<usize, String>;

#[verifier::ext_equal]
pub enum LoadResultView {
    Loaded(usize),
    Failed(Seq<char>),
}

pub open spec fn load_result_view(result: LoadResult) -> LoadResultView {
    match result {
        Ok(index) => LoadResultView::Loaded(index),
        Err(error) => LoadResultView::Failed(error@),
    }
}

/// What a session that wants a workspace loaded does next.
#[derive(Clone, Copy, Debug, PartialEq, Eq, Structural)]
pub enum LoadStep {
    /// Wait for an explicit operation, and ask again.
    WaitOperation(u64),
    /// Load it.
    Lead(u64),
    /// Wait for the session that loads it.
    Follow(u64),
    /// Take it as it is: it is loaded.
    Loaded(usize),
}

#[derive(Debug)]
pub struct SharedAnalyzerWorldEntry {
    pub client_sessions: usize,
    pub world: u64,
}

#[derive(Debug)]
pub struct SharedAnalyzerViewEntry {
    pub client_sessions: usize,
    pub view: WorkspaceView,
}

/// What a registered view shows of its backend.
#[derive(Debug)]
pub struct BackendEntry {
    pub key: SharedAnalyzerBackendKey,
    pub client_sessions: usize,
    pub world: u64,
    pub view: WorkspaceView,
}

pub struct SharedAnalyzerRegistry {
    worlds: OrderedMap<SharedAnalyzerWorldKey, SharedAnalyzerWorldEntry>,
    views: OrderedMap<SharedAnalyzerBackendKey, SharedAnalyzerViewEntry>,
    loads: OrderedMap<SharedAnalyzerWorkspaceLoadKey, u64>,
    load_results: OrderedMap<u64, Option<LoadResult>>,
    operations: SharedOperations,
    next_world: u64,
    next_load: u64,
}

#[verifier::ext_equal]
pub struct WorldEntryView {
    pub client_sessions: usize,
    pub world: u64,
}

#[verifier::ext_equal]
pub struct ViewEntryView {
    pub client_sessions: usize,
    pub view: WorkspaceViewModel,
}

#[verifier::ext_equal]
pub struct RegistryView {
    pub worlds: Map<WorldKeyView, WorldEntryView>,
    pub views: Map<BackendKeyView, ViewEntryView>,
    pub loads: Map<WorkspaceLoadKeyView, u64>,
    pub load_results: Map<u64, Option<LoadResultView>>,
    pub operations: OperationsView,
    pub next_world: u64,
    pub next_load: u64,
}

pub open spec fn world_entry_view(e: SharedAnalyzerWorldEntry) -> WorldEntryView {
    WorldEntryView { client_sessions: e.client_sessions, world: e.world }
}

pub open spec fn view_entry_view(e: SharedAnalyzerViewEntry) -> ViewEntryView {
    ViewEntryView { client_sessions: e.client_sessions, view: e.view@ }
}

pub open spec fn load_slot_view(slot: Option<LoadResult>) -> Option<LoadResultView> {
    match slot {
        Some(result) => Some(load_result_view(result)),
        None => None,
    }
}

impl View for SharedAnalyzerRegistry {
    type V = RegistryView;

    closed spec fn view(&self) -> RegistryView {
        RegistryView {
            worlds: self.worlds@.map_values(|e: SharedAnalyzerWorldEntry| world_entry_view(e)),
            views: self.views@.map_values(|e: SharedAnalyzerViewEntry| view_entry_view(e)),
            loads: self.loads@,
            load_results: self.load_results@.map_values(|s: Option<LoadResult>| load_slot_view(s)),
            operations: self.operations@,
            next_world: self.next_world,
            next_load: self.next_load,
        }
    }
}

impl RegistryView {
    pub open spec fn load_finished(self, id: u64) -> bool {
        !self.load_results.contains_key(id) || self.load_results[id] is Some
    }

    /// Loads in progress are open and have numbers of their own, and every operation queued for a
    /// world waits for the loads in progress there. Worlds have numbers of their own, and every view
    /// has a session.
    pub closed spec fn wf(self) -> bool {
        &&& self.operations.wf()
        &&& self.worlds_apart()
        &&& forall|k: BackendKeyView| #[trigger] self.views.contains_key(k) ==> self.views[k].client_sessions >= 1
        &&& forall|k: WorkspaceLoadKeyView| #[trigger] self.loads.contains_key(k) ==> !self.load_finished(self.loads[k])
        &&& forall|j: WorkspaceLoadKeyView, k: WorkspaceLoadKeyView|
            #[trigger] self.loads.contains_key(j) && #[trigger] self.loads.contains_key(k) && self.loads[j] == self.loads[k]
                ==> j == k
        &&& forall|id: u64| #[trigger] self.load_results.contains_key(id) ==> id < self.next_load
        &&& self.loads_awaited()
    }

    /// Worlds of different keys have different numbers, all of which were given.
    pub open spec fn worlds_apart(self) -> bool {
        &&& forall|k: WorldKeyView| #[trigger] self.worlds.contains_key(k) ==> self.worlds[k].world < self.next_world
        &&& forall|j: WorldKeyView, k: WorldKeyView|
            #[trigger] self.worlds.contains_key(j) && #[trigger] self.worlds.contains_key(k) && self.worlds[j].world
                == self.worlds[k].world ==> j == k
    }

    pub open spec fn loads_awaited(self) -> bool {
        forall|k: WorkspaceLoadKeyView, i: int|
            #[trigger] self.loads.contains_key(k) && 0 <= i < self.operations.queue(k.world).len()
                ==> self.operations.records[(#[trigger] self.operations.queue(k.world)[i]).1].pending_loads.contains(
                self.loads[k],
            )
    }

    pub open spec fn with_operations(self, operations: OperationsView) -> RegistryView {
        RegistryView { operations, ..self }
    }

    /// A world's number: the one it has, or the next.
    pub open spec fn world_number(self, key: WorldKeyView) -> u64 {
        if self.worlds.contains_key(key) {
            self.worlds[key].world
        } else {
            self.next_world
        }
    }

    pub open spec fn world_opened(self, key: WorldKeyView) -> RegistryView {
        if self.worlds.contains_key(key) {
            self
        } else {
            RegistryView {
                worlds: self.worlds.insert(key, WorldEntryView { client_sessions: 0, world: self.next_world }),
                next_world: (self.next_world + 1) as u64,
                ..self
            }
        }
    }

    pub open spec fn world_retained(self, key: WorldKeyView) -> RegistryView {
        RegistryView {
            worlds: self.worlds.insert(
                key,
                WorldEntryView {
                    client_sessions: (self.worlds[key].client_sessions + 1) as usize,
                    world: self.worlds[key].world,
                },
            ),
            ..self
        }
    }

    pub open spec fn world_released(self, key: WorldKeyView) -> RegistryView {
        if !self.worlds.contains_key(key) {
            self
        } else if self.worlds[key].client_sessions <= 1 {
            RegistryView { worlds: self.worlds.remove(key), ..self }
        } else {
            RegistryView {
                worlds: self.worlds.insert(
                    key,
                    WorldEntryView {
                        client_sessions: (self.worlds[key].client_sessions - 1) as usize,
                        world: self.worlds[key].world,
                    },
                ),
                ..self
            }
        }
    }

    pub open spec fn world_sessions(self, key: WorldKeyView) -> usize {
        if self.worlds.contains_key(key) {
            self.worlds[key].client_sessions
        } else {
            0
        }
    }

    pub open spec fn view_sessions(self, key: BackendKeyView) -> usize {
        if self.views.contains_key(key) {
            self.views[key].client_sessions
        } else {
            0
        }
    }

    /// One more session uses the view, whose content is now the one given.
    pub open spec fn registered(self, key: BackendKeyView, view: WorkspaceViewModel) -> RegistryView {
        RegistryView {
            views: self.views.insert(
                key,
                ViewEntryView { client_sessions: (self.view_sessions(key) + 1) as usize, view },
            ),
            ..self
        }
    }

    pub open spec fn view_released(self, key: BackendKeyView) -> RegistryView {
        if !self.views.contains_key(key) {
            self
        } else if self.views[key].client_sessions <= 1 {
            RegistryView { views: self.views.remove(key), ..self }
        } else {
            RegistryView {
                views: self.views.insert(
                    key,
                    ViewEntryView {
                        client_sessions: (self.views[key].client_sessions - 1) as usize,
                        view: self.views[key].view,
                    },
                ),
                ..self
            }
        }
    }

    pub open spec fn unregistered(self, key: BackendKeyView) -> RegistryView {
        self.view_released(key).world_released(key.shared_world)
    }

    pub open spec fn load_begun(self, key: WorkspaceLoadKeyView) -> RegistryView {
        RegistryView {
            loads: self.loads.insert(key, self.next_load),
            load_results: self.load_results.insert(self.next_load, None),
            next_load: (self.next_load + 1) as u64,
            ..self
        }
    }

    /// What a session that wants a workspace does, where `loaded` is the place of the workspace if
    /// the world has it.
    pub open spec fn load_step(self, key: WorkspaceLoadKeyView, loaded: Option<usize>) -> LoadStep {
        match self.operations.active(key.world) {
            Some(operation) => LoadStep::WaitOperation(operation),
            None => if self.loads.contains_key(key) {
                LoadStep::Follow(self.loads[key])
            } else {
                match loaded {
                    Some(index) => LoadStep::Loaded(index),
                    None => LoadStep::Lead(self.next_load),
                }
            },
        }
    }

    /// One more session is on its way into a world, which is opened if need be.
    pub open spec fn joining(self, key: WorldKeyView) -> RegistryView {
        self.world_opened(key).world_retained(key)
    }

    pub open spec fn load_ended(self, key: WorkspaceLoadKeyView, id: u64, result: LoadResultView) -> RegistryView {
        RegistryView {
            loads: self.loads.remove(key),
            load_results: self.load_results.insert(id, Some(result)),
            ..self
        }
    }

    pub open spec fn first_open_load(self, ids: Seq<u64>) -> Option<u64>
        decreases ids.len(),
    {
        if ids.len() == 0 {
            None
        } else if !self.load_finished(ids[0]) {
            Some(ids[0])
        } else {
            self.first_open_load(ids.drop_first())
        }
    }

    /// What a queued operation waits for: its loads, then its place in the queue.
    pub open spec fn operation_wait(self, world: WorldKeyView, id: u64) -> OperationWait {
        match self.first_open_load(self.operations.records[id].pending_loads) {
            Some(load) => OperationWait::Load(load),
            None => self.operations.queue_wait(world, id),
        }
    }
}

pub proof fn lemma_wf_operations(s: RegistryView)
    requires
        s.wf(),
    ensures
        s.operations.wf(),
{
}

/// The loads in progress in a world.
pub open spec fn loads_of(s: RegistryView, world: WorldKeyView, ids: Seq<u64>) -> bool {
    forall|id: u64| #[trigger] ids.contains(id) <==> exists|k: WorkspaceLoadKeyView| #[trigger] s.loads.contains_key(k) && k.world == world && s.loads[k] == id
}

impl SharedAnalyzerRegistry {
    pub fn new() -> (r: Self)
        ensures
            r@.worlds == Map::<WorldKeyView, WorldEntryView>::empty(),
            r@.views == Map::<BackendKeyView, ViewEntryView>::empty(),
            r@.loads == Map::<WorkspaceLoadKeyView, u64>::empty(),
            r@.load_results == Map::<u64, Option<LoadResultView>>::empty(),
            r@.operations == (OperationsView { queues: Map::empty(), normals: Map::empty(), records: Map::empty(), next: 0 }),
            r@.next_world == 0 && r@.next_load == 0,
            r@.wf(),
    {
        let r = SharedAnalyzerRegistry {
            worlds: OrderedMap::new(),
            views: OrderedMap::new(),
            loads: OrderedMap::new(),
            load_results: OrderedMap::new(),
            operations: SharedOperations::new(),
            next_world: 0,
            next_load: 0,
        };
        proof {
            assert(r@.worlds =~= Map::<WorldKeyView, WorldEntryView>::empty());
            assert(r@.views =~= Map::<BackendKeyView, ViewEntryView>::empty());
            assert(r@.load_results =~= Map::<u64, Option<LoadResultView>>::empty());
        }
        r
    }

    /// The number of the world under a key, which is opened if need be.
    pub fn world(&mut self, key: &SharedAnalyzerWorldKey) -> (r: u64)
        requires
            old(self)@.next_world < u64::MAX,
        ensures
            r == old(self)@.world_number(key@),
            final(self)@ == old(self)@.world_opened(key@),
            old(self)@.wf() ==> final(self)@.wf(),
    {
        match self.worlds.get(key) {
            Some(entry) => {
                return entry.world;
            },
            None => {},
        }
        let world: u64 = self.next_world;
        self.next_world = world + 1;
        self.worlds.insert(key.duplicate(), SharedAnalyzerWorldEntry { client_sessions: 0, world });
        proof {
            assert(self@.worlds =~= old(self)@.world_opened(key@).worlds);
            assert(self@.views =~= old(self)@.views);
            assert(self@.load_results =~= old(self)@.load_results);
        }
        world
    }

    /// One more session uses an open world.
    pub fn retain_world(&mut self, key: &SharedAnalyzerWorldKey)
        requires
            old(self)@.worlds.contains_key(key@),
            old(self)@.worlds[key@].client_sessions < usize::MAX,
        ensures
            final(self)@ == old(self)@.world_retained(key@),
            old(self)@.wf() ==> final(self)@.wf(),
    {
        match self.worlds.remove(key) {
            Some(entry) => {
                let mut next = entry;
                next.client_sessions = next.client_sessions + 1;
                self.worlds.insert(key.duplicate(), next);
            },
            None => {},
        }
        proof {
            assert(self@.worlds =~= old(self)@.world_retained(key@).worlds);
            assert(self@.views =~= old(self)@.views);
            assert(self@.load_results =~= old(self)@.load_results);
        }
    }

    /// One session fewer uses a world, which goes with the last.
    pub fn release_world(&mut self, key: &SharedAnalyzerWorldKey)
        ensures
            final(self)@ == old(self)@.world_released(key@),
            old(self)@.wf() ==> final(self)@.wf(),
    {
        match self.worlds.remove(key) {
            Some(entry) => {
                if entry.client_sessions > 1 {
                    let mut next = entry;
                    next.client_sessions = next.client_sessions - 1;
                    self.worlds.insert(key.duplicate(), next);
                }
            },
            None => {},
        }
        proof {
            assert(self@.worlds =~= old(self)@.world_released(key@).worlds);
            assert(self@.views =~= old(self)@.views);
            assert(self@.load_results =~= old(self)@.load_results);
        }
    }

    /// Enters a session's view. A view that was there is counted once more and takes the new
    /// content.
    pub fn register(&mut self, key: &SharedAnalyzerBackendKey, view: &WorkspaceView)
        requires
            old(self)@.view_sessions(key@) < usize::MAX,
        ensures
            final(self)@ == old(self)@.registered(key@, view@),
            old(self)@.wf() ==> final(self)@.wf(),
    {
        let sessions: usize = match self.views.get(key) {
            Some(entry) => entry.client_sessions,
            None => 0,
        };
        self.views.insert(
            key.duplicate(),
            SharedAnalyzerViewEntry { client_sessions: sessions + 1, view: view.duplicate() },
        );
        proof {
            assert(self@.views =~= old(self)@.registered(key@, view@).views);
            assert(self@.worlds =~= old(self)@.worlds);
            assert(self@.load_results =~= old(self)@.load_results);
        }
    }

    /// A session is on its way into a world, which is opened if need be and counted once more.
    pub fn begin_registration(&mut self, key: &SharedAnalyzerBackendKey) -> (r: u64)
        requires
            old(self)@.next_world < u64::MAX,
            old(self)@.world_sessions(key@.shared_world) < usize::MAX,
        ensures
            r == old(self)@.world_number(key@.shared_world),
            final(self)@ == old(self)@.joining(key@.shared_world),
            old(self)@.wf() ==> final(self)@.wf(),
    {
        let world = self.world(&key.shared_world);
        self.retain_world(&key.shared_world);
        world
    }

    /// A session that was on its way into a world has come in with its view, or has failed: its view
    /// is counted, or its world is counted once less.
    pub fn finish_registration(&mut self, key: &SharedAnalyzerBackendKey, view: Option<&WorkspaceView>)
        requires
            view is Some ==> old(self)@.view_sessions(key@) < usize::MAX,
        ensures
            final(self)@ == (match view {
                Some(view) => old(self)@.registered(key@, view@),
                None => old(self)@.world_released(key@.shared_world),
            }),
            old(self)@.wf() ==> final(self)@.wf(),
    {
        match view {
            Some(view) => {
                self.register(key, view);
            },
            None => {
                self.release_world(&key.shared_world);
            },
        }
    }

    /// A session leaves its view and its world.
    pub fn unregister(&mut self, key: &SharedAnalyzerBackendKey)
        ensures
            final(self)@ == old(self)@.unregistered(key@),
            old(self)@.wf() ==> final(self)@.wf(),
    {
        match self.views.remove(key) {
            Some(entry) => {
                if entry.client_sessions > 1 {
                    let mut next = entry;
                    next.client_sessions = next.client_sessions - 1;
                    self.views.insert(key.duplicate(), next);
                }
            },
            None => {},
        }
        proof {
            assert(self@.views =~= old(self)@.view_released(key@).views);
            assert(self@.worlds =~= old(self)@.worlds);
            assert(self@.load_results =~= old(self)@.load_results);
            assert(self@ =~= old(self)@.view_released(key@));
        }
        self.release_world(&key.shared_world);
    }

    /// The views whose world is open, by ascending key.
    pub fn backend_entries(&self) -> (r: Vec<BackendEntry>)
        ensures
            forall|i: int| 0 <= i < r@.len() ==> {
                let e = #[trigger] r@[i];
                &&& self@.views.contains_key(e.key@)
                &&& self@.worlds.contains_key(e.key@.shared_world)
                &&& e.client_sessions == self@.views[e.key@].client_sessions
                &&& e.world == self@.worlds[e.key@.shared_world].world
                &&& e.view@ == self@.views[e.key@].view
                &&& self@.wf() ==> e.client_sessions >= 1
            },
            forall|i: int, j: int| 0 <= i < j < r@.len() ==> crate::ordered::key_less::<SharedAnalyzerBackendKey>(
                (#[trigger] r@[i]).key@,
                (#[trigger] r@[j]).key@,
            ),
            forall|k: BackendKeyView| #[trigger] self@.views.contains_key(k) && self@.worlds.contains_key(k.shared_world)
                ==> exists|i: int| 0 <= i < r@.len() && (#[trigger] r@[i]).key@ == k,
    {
        let n = self.views.len();
        let mut r: Vec<BackendEntry> = Vec::new();
        let mut from: Ghost<Seq<int>> = Ghost(Seq::empty());
        let mut i: usize = 0;
        while i < n
            invariant
                i <= n,
                n == self.views.keys().len(),
                listed(self.views),
                from@.len() == r@.len(),
                forall|x: int| 0 <= x < r@.len() ==> {
                    let e = #[trigger] r@[x];
                    &&& 0 <= from@[x] < i
                    &&& e.key@ == self.views.keys()[from@[x]]
                    &&& self@.worlds.contains_key(e.key@.shared_world)
                    &&& e.client_sessions == self.views.values()[from@[x]].client_sessions
                    &&& e.world == self@.worlds[e.key@.shared_world].world
                    &&& e.view@ == self.views.values()[from@[x]].view@
                },
                forall|x: int, y: int| 0 <= x < y < r@.len() ==> from@[x] < from@[y],
                forall|y: int|
                    0 <= y < i && self@.worlds.contains_key((#[trigger] self.views.keys()[y]).shared_world) ==> exists|x: int|
                        0 <= x < r@.len() && #[trigger] from@[x] == y,
            decreases n - i,
        {
            let key = self.views.key_at(i);
            let entry = self.views.value_at(i);
            let ghost before = r@;
            let ghost from_before = from@;
            match self.worlds.get(&key.shared_world) {
                Some(world) => {
                    proof {
                        assert(self@.worlds.contains_key(key@.shared_world));
                    }
                    r.push(
                        BackendEntry {
                            key: key.duplicate(),
                            client_sessions: entry.client_sessions,
                            world: world.world,
                            view: entry.view.duplicate(),
                        },
                    );
                    proof {
                        from@ = from_before.push(i as int);
                        assert(from@[before.len() as int] == i as int);
                        assert forall|x: int, y: int| 0 <= x < y < r@.len() implies from@[x] < from@[y] by {
                            if y == before.len() {
                                assert(r@[x] == before[x]);
                            }
                        }
                        assert forall|y: int|
                            0 <= y < i + 1 && self@.worlds.contains_key((#[trigger] self.views.keys()[y]).shared_world) implies exists|x: int|
                            0 <= x < r@.len() && #[trigger] from@[x] == y by {
                            if y < i {
                                let x = choose|x: int| 0 <= x < before.len() && #[trigger] from_before[x] == y;
                                assert(from@[x] == y);
                            }
                        }
                        assert forall|x: int| 0 <= x < r@.len() implies {
                            let e = #[trigger] r@[x];
                            &&& 0 <= from@[x] < i + 1
                            &&& e.key@ == self.views.keys()[from@[x]]
                            &&& self@.worlds.contains_key(e.key@.shared_world)
                            &&& e.client_sessions == self.views.values()[from@[x]].client_sessions
                            &&& e.world == self@.worlds[e.key@.shared_world].world
                            &&& e.view@ == self.views.values()[from@[x]].view@
                        } by {
                            if x < before.len() {
                                assert(r@[x] == before[x]);
                            }
                        }
                    }
                },
                None => {},
            }
            i = i + 1;
        }
        proof {
            assert forall|x: int| 0 <= x < r@.len() implies {
                let e = #[trigger] r@[x];
                &&& self@.views.contains_key(e.key@)
                &&& e.client_sessions == self@.views[e.key@].client_sessions
                &&& e.view@ == self@.views[e.key@].view
            } by {
                assert(self.views@.contains_key(self.views.keys()[from@[x]]));
            }
            assert forall|x: int, y: int| 0 <= x < y < r@.len() implies crate::ordered::key_less::<SharedAnalyzerBackendKey>(
                (#[trigger] r@[x]).key@,
                (#[trigger] r@[y]).key@,
            ) by {
                assert(from@[x] < from@[y]);
            }
            assert forall|k: BackendKeyView| #[trigger] self@.views.contains_key(k) && self@.worlds.contains_key(k.shared_world) implies exists|x: int|
                0 <= x < r@.len() && (#[trigger] r@[x]).key@ == k by {
                assert(self.views@.contains_key(k));
                let y = self.views.keys().index_of(k);
                assert(self.views.keys()[y] == k);
                let x = choose|x: int| 0 <= x < r@.len() && #[trigger] from@[x] == y;
                assert(r@[x].key@ == k);
            }
        }
        r
    }

    /// The worlds in a collection of garbage, by ascending key: work in all but the last is
    /// cancelled, and the last is collected, which serves all of them.
    pub fn collection_plan(&self) -> (r: (Vec<u64>, Option<u64>))
        ensures
            ({
                let all = world_numbers(self@);
                if all.len() == 0 {
                    r.0@.len() == 0 && r.1 is None
                } else {
                    r.0@ == all.drop_last() && r.1 == Some(all.last())
                }
            }),
    {
        let n = self.worlds.len();
        let ghost all = world_numbers(self@);
        let mut cancelled: Vec<u64> = Vec::new();
        proof {
            lemma_sorted_keys(self.worlds);
            assert(self@.worlds.dom() =~= self.worlds@.dom());
            assert(self.worlds.keys() == sorted_keys::<SharedAnalyzerWorldKey>(self@.worlds.dom()));
            assert(all.len() == n);
            assert forall|x: int| 0 <= x < n implies #[trigger] all[x] == self.worlds.values()[x].world by {
                assert(self.worlds@.contains_key(self.worlds.keys()[x]));
            }
        }
        if n == 0 {
            return (cancelled, None);
        }
        let mut i: usize = 0;
        while n - i > 1
            invariant
                n == self.worlds.keys().len(),
                n > 0,
                i < n,
                all.len() == n,
                listed(self.worlds),
                cancelled@ == all.take(i as int),
                forall|x: int| 0 <= x < n ==> #[trigger] all[x] == self.worlds.values()[x].world,
            decreases n - i,
        {
            cancelled.push(self.worlds.value_at(i).world);
            proof {
                assert(all[i as int] == self.worlds.values()[i as int].world);
                assert(cancelled@ =~= all.take(i + 1));
            }
            i = i + 1;
        }
        let last = self.worlds.value_at(n - 1).world;
        proof {
            assert(all[n - 1] == self.worlds.values()[n - 1].world);
            assert(cancelled@ =~= all.drop_last());
        }
        (cancelled, Some(last))
    }
}

/// The numbers of the worlds, by ascending key.
pub open spec fn world_numbers(s: RegistryView) -> Seq<u64> {
    sorted_keys::<SharedAnalyzerWorldKey>(s.worlds.dom()).map_values(|k: WorldKeyView| s.worlds[k].world)
}

/// `ops` holds only operations that `s` has queued in the same worlds, with the same loads to wait
/// for.
pub open spec fn no_new_turns(s: OperationsView, ops: OperationsView) -> bool {
    forall|w: WorldKeyView, i: int| 0 <= i < ops.queue(w).len() ==> turn_kept(s, ops, w, (#[trigger] ops.queue(w)[i]).1)
}

pub open spec fn turn_kept(s: OperationsView, ops: OperationsView, w: WorldKeyView, id: u64) -> bool {
    &&& exists|j: int| 0 <= j < s.queue(w).len() && (#[trigger] s.queue(w)[j]).1 == id
    &&& ops.records[id].pending_loads == s.records[id].pending_loads
}

proof fn lemma_no_new_turns(s: RegistryView, ops: OperationsView)
    requires
        s.wf(),
        ops.wf(),
        no_new_turns(s.operations, ops),
    ensures
        s.with_operations(ops).wf(),
{
    let t = s.with_operations(ops);
    assert forall|k: WorkspaceLoadKeyView, i: int|
        #[trigger] t.loads.contains_key(k) && 0 <= i < t.operations.queue(k.world).len() implies t.operations.records[(
    #[trigger] t.operations.queue(k.world)[i]).1].pending_loads.contains(t.loads[k]) by {
        let id = ops.queue(k.world)[i].1;
        assert(turn_kept(s.operations, ops, k.world, id));
        let j = choose|j: int| 0 <= j < s.operations.queue(k.world).len() && (#[trigger] s.operations.queue(k.world)[j]).1 == id;
        assert(s.loads.contains_key(k));
        assert(s.operations.records[s.operations.queue(k.world)[j].1].pending_loads.contains(s.loads[k]));
    }
}

proof fn lemma_record_turns(s: OperationsView, id: u64, record: ReloadView)
    requires
        s.records.contains_key(id) ==> record.pending_loads == s.records[id].pending_loads,
        s.wf(),
        !s.finished(id) || s.records.contains_key(id),
    ensures
        no_new_turns(s, s.with_record(id, record)),
{
    let t = s.with_record(id, record);
    assert forall|w: WorldKeyView, i: int| 0 <= i < t.queue(w).len() implies turn_kept(s, t, w, (#[trigger] t.queue(w)[i]).1) by {
        assert(t.queue(w) == s.queue(w));
        assert(s.queue(w)[i].1 == t.queue(w)[i].1);
    }
}

proof fn lemma_unqueue_turns(s: OperationsView, world: WorldKeyView, item: (BackendKeyView, u64), result: ResultView)
    requires
        s.wf(),
        s.queue(world).contains(item),
    ensures
        no_new_turns(s, s.closed_record(item.1, result).with_queue(world, without(s.queue(world), item))),
{
    let t = s.closed_record(item.1, result).with_queue(world, without(s.queue(world), item));
    assert forall|w: WorldKeyView, i: int| 0 <= i < t.queue(w).len() implies turn_kept(s, t, w, (#[trigger] t.queue(w)[i]).1) by {
        if w == world {
            assert(t.queue(w) == without(s.queue(world), item));
            lemma_without_member(s.queue(world), item, i);
            let j = choose|j: int| 0 <= j < s.queue(world).len() && s.queue(world)[j] == without(s.queue(world), item)[i];
            assert(s.queue(w)[j].1 == t.queue(w)[i].1);
        } else {
            assert(t.queue(w) == s.queue(w));
            assert(s.queue(w)[i].1 == t.queue(w)[i].1);
        }
    }
}

proof fn lemma_without_member<A>(s: Seq<A>, item: A, i: int)
    requires
        0 <= i < without(s, item).len(),
    ensures
        exists|j: int| 0 <= j < s.len() && s[j] == without(s, item)[i],
    decreases s.len(),
{
    if s.len() > 0 {
        if s[0] == item {
            assert(s[i + 1] == without(s, item)[i]);
        } else if i == 0 {
            assert(s[0] == without(s, item)[0]);
        } else {
            lemma_without_member(s.drop_first(), item, i - 1);
            let j = choose|j: int| 0 <= j < s.drop_first().len() && s.drop_first()[j] == without(s.drop_first(), item)[i - 1];
            assert(s[j + 1] == without(s, item)[i]);
        }
    }
}

/// The numbers of the first `n` loads that belong to a world.
pub open spec fn picked(keys: Seq<WorkspaceLoadKeyView>, loads: Map<WorkspaceLoadKeyView, u64>, world: WorldKeyView, n: int) -> Seq<u64>
    decreases n,
{
    if n <= 0 {
        Seq::empty()
    } else if keys[n - 1].world == world {
        picked(keys, loads, world, n - 1).push(loads[keys[n - 1]])
    } else {
        picked(keys, loads, world, n - 1)
    }
}

/// The loads in progress in a world, by ascending key.
pub open spec fn loads_in(s: RegistryView, world: WorldKeyView) -> Seq<u64> {
    let keys = sorted_keys::<SharedAnalyzerWorkspaceLoadKey>(s.loads.dom());
    picked(keys, s.loads, world, keys.len() as int)
}

proof fn lemma_picked(keys: Seq<WorkspaceLoadKeyView>, loads: Map<WorkspaceLoadKeyView, u64>, world: WorldKeyView, n: int, id: u64)
    requires
        0 <= n <= keys.len(),
    ensures
        picked(keys, loads, world, n).contains(id) <==> exists|x: int|
            0 <= x < n && (#[trigger] keys[x]).world == world && loads[keys[x]] == id,
    decreases n,
{
    if n > 0 {
        lemma_picked(keys, loads, world, n - 1, id);
        let before = picked(keys, loads, world, n - 1);
        let after = picked(keys, loads, world, n);
        if before.contains(id) {
            let i = before.index_of(id);
            assert(after[i] == id);
        }
        if keys[n - 1].world == world && loads[keys[n - 1]] == id {
            assert(after[before.len() as int] == id);
        }
        if after.contains(id) && !before.contains(id) {
            let i = after.index_of(id);
            assert(i == before.len());
            assert(keys[n - 1].world == world);
        }
    }
}

impl SharedAnalyzerRegistry {
    fn world_loads(&self, world: &SharedAnalyzerWorldKey) -> (r: Vec<u64>)
        ensures
            r@ == loads_in(self@, world@),
            loads_of(self@, world@, r@),
    {
        let n = self.loads.len();
        let mut r: Vec<u64> = Vec::new();
        let ghost keys = self.loads.keys();
        let ghost loads = self@.loads;
        let mut i: usize = 0;
        while i < n
            invariant
                i <= n,
                n == keys.len(),
                keys == self.loads.keys(),
                loads == self.loads@,
                listed(self.loads),
                r@ == picked(keys, loads, world@, i as int),
            decreases n - i,
        {
            let load: u64 = *self.loads.value_at(i);
            proof {
                assert(loads.contains_key(keys[i as int]));
            }
            if same(&self.loads.key_at(i).world, world) {
                r.push(load);
            }
            i = i + 1;
        }
        proof {
            lemma_sorted_keys(self.loads);
            assert forall|id: u64| #[trigger] r@.contains(id) <==> exists|k: WorkspaceLoadKeyView| #[trigger] self@.loads.contains_key(k) && k.world == world@
                && self@.loads[k] == id by {
                lemma_picked(keys, loads, world@, n as int, id);
                if r@.contains(id) {
                    let x = choose|x: int| 0 <= x < n && (#[trigger] keys[x]).world == world@ && loads[keys[x]] == id;
                    assert(self@.loads.contains_key(keys[x]));
                }
                if exists|k: WorkspaceLoadKeyView| #[trigger] self@.loads.contains_key(k) && k.world == world@ && self@.loads[k] == id {
                    let k = choose|k: WorkspaceLoadKeyView| #[trigger] self@.loads.contains_key(k) && k.world == world@ && self@.loads[k] == id;
                    let x = keys.index_of(k);
                    assert(keys[x] == k && loads[keys[x]] == id);
                }
            }
        }
        r
    }

    /// Queues an explicit operation. It waits for the loads in progress in its world.
    pub fn enqueue_operation(&mut self, key: SharedAnalyzerBackendKey) -> (id: u64)
        requires
            old(self)@.wf(),
            old(self)@.operations.next < u64::MAX,
        ensures
            id == old(self)@.operations.next,
            final(self)@ == old(self)@.with_operations(
                old(self)@.operations.enqueued(key@, loads_in(old(self)@, key@.shared_world)),
            ),
            loads_of(old(self)@, key@.shared_world, loads_in(old(self)@, key@.shared_world)),
            final(self)@.wf(),
    {
        let loads = self.world_loads(&key.shared_world);
        let ghost model = key@;
        let id = self.operations.enqueue_operation(key, loads);
        proof {
            let s = old(self)@;
            let t = s.with_operations(s.operations.enqueued(model, loads@));
            assert(self@ =~= t);
            assert forall|k: WorkspaceLoadKeyView, i: int|
                #[trigger] t.loads.contains_key(k) && 0 <= i < t.operations.queue(k.world).len() implies t.operations.records[(
            #[trigger] t.operations.queue(k.world)[i]).1].pending_loads.contains(t.loads[k]) by {
                assert(s.loads.contains_key(k));
                if k.world == model.shared_world {
                    assert(t.operations.queue(k.world) == s.operations.queue(k.world).push((model, s.operations.next)));
                    if i < s.operations.queue(k.world).len() {
                        assert(t.operations.queue(k.world)[i] == s.operations.queue(k.world)[i]);
                        assert(!s.operations.finished(s.operations.queue(k.world)[i].1));
                    } else {
                        assert(loads@.contains(s.loads[k]));
                    }
                } else {
                    assert(t.operations.queue(k.world) == s.operations.queue(k.world));
                    assert(!s.operations.finished(s.operations.queue(k.world)[i].1));
                }
            }
        }
        id
    }

    fn first_open_load(&self, ids: &Vec<u64>) -> (r: Option<u64>)
        ensures
            r == self@.first_open_load(ids@),
    {
        let mut i: usize = 0;
        proof {
            assert(ids@.skip(0) =~= ids@);
        }
        while i < ids.len()
            invariant
                i <= ids.len(),
                self@.first_open_load(ids@) == self@.first_open_load(ids@.skip(i as int)),
            decreases ids.len() - i,
        {
            proof {
                assert(ids@.skip(i as int).drop_first() =~= ids@.skip(i + 1));
            }
            if !self.load_finished(ids[i]) {
                return Some(ids[i]);
            }
            i = i + 1;
        }
        None
    }

    pub fn load_finished(&self, id: u64) -> (r: bool)
        ensures
            r == self@.load_finished(id),
    {
        match self.load_results.get(&id) {
            Some(slot) => slot.is_some(),
            None => true,
        }
    }

    /// How a load ended, once it has.
    pub fn load_result(&self, id: u64) -> (r: Option<LoadResult>)
        ensures
            load_slot_view(r) == (if self@.load_results.contains_key(id) { self@.load_results[id] } else { None }),
    {
        match self.load_results.get(&id) {
            Some(slot) => match slot {
                Some(Ok(index)) => Some(Ok(*index)),
                Some(Err(error)) => Some(Err(error.clone())),
                None => None,
            },
            None => None,
        }
    }

    /// What a queued operation waits for next.
    pub fn wait_operation_ready(&self, world: &SharedAnalyzerWorldKey, id: u64) -> (r: OperationWait)
        requires
            self@.operations.records.contains_key(id),
        ensures
            r == self@.operation_wait(world@, id),
    {
        let loads = self.operations.pending_loads(id);
        match self.first_open_load(&loads) {
            Some(load) => OperationWait::Load(load),
            None => self.operations.wait_in_queue(world, id),
        }
    }

    /// What a normal operation waits for next.
    pub fn wait_normal_operation_ready(&self, world: &SharedAnalyzerWorldKey, id: u64) -> (r: OperationWait)
        requires
            self@.wf(),
        ensures
            r == (if !self@.operations.normal(world@).contains(id) {
                OperationWait::Unregistered
            } else if self@.operations.normal_ready(world@, id) {
                OperationWait::Ready
            } else {
                OperationWait::Operation(self@.operations.queue(world@)[0].1)
            }),
    {
        self.operations.wait_normal_operation_ready(world, id)
    }

    /// Asks for a workspace, whose place in the world is given if it is loaded. While an explicit
    /// operation is queued for the world the caller waits for it; else it follows the load in
    /// progress, takes the workspace that is there, or leads a new load.
    pub fn ensure_workspace_loaded(&mut self, key: &SharedAnalyzerWorkspaceLoadKey, loaded: Option<usize>) -> (r: LoadStep)
        requires
            old(self)@.wf(),
            old(self)@.next_load < u64::MAX,
        ensures
            r == old(self)@.load_step(key@, loaded),
            r is Lead ==> final(self)@ == old(self)@.load_begun(key@),
            !(r is Lead) ==> final(self)@ == old(self)@,
            final(self)@.wf(),
    {
        match self.operations.active_operation(&key.world) {
            Some(operation) => {
                return LoadStep::WaitOperation(operation);
            },
            None => {},
        }
        match self.loads.get(key) {
            Some(load) => {
                return LoadStep::Follow(*load);
            },
            None => {},
        }
        match loaded {
            Some(index) => {
                return LoadStep::Loaded(index);
            },
            None => {},
        }
        let id: u64 = self.next_load;
        self.next_load = id + 1;
        self.loads.insert(key.duplicate(), id);
        self.load_results.insert(id, None);
        proof {
            let s = old(self)@;
            let t = s.load_begun(key@);
            assert(self@.load_results =~= t.load_results);
            assert(self@.worlds =~= t.worlds);
            assert(self@.views =~= t.views);
            assert(self@ =~= t);
            assert(s.load_finished(id));
            assert forall|k: WorkspaceLoadKeyView| #[trigger] t.loads.contains_key(k) implies !t.load_finished(t.loads[k]) by {
                if k != key@ {
                    assert(s.loads.contains_key(k) && !s.load_finished(s.loads[k]));
                }
            }
            assert forall|j: WorkspaceLoadKeyView, k: WorkspaceLoadKeyView|
                #[trigger] t.loads.contains_key(j) && #[trigger] t.loads.contains_key(k) && t.loads[j] == t.loads[k] implies j
                == k by {
                if j != key@ {
                    assert(s.loads.contains_key(j) && !s.load_finished(s.loads[j]));
                }
                if k != key@ {
                    assert(s.loads.contains_key(k) && !s.load_finished(s.loads[k]));
                }
            }
            assert forall|k: WorkspaceLoadKeyView, i: int|
                #[trigger] t.loads.contains_key(k) && 0 <= i < t.operations.queue(k.world).len() implies t.operations.records[(
            #[trigger] t.operations.queue(k.world)[i]).1].pending_loads.contains(t.loads[k]) by {
                if k != key@ {
                    assert(s.loads.contains_key(k));
                }
            }
        }
        LoadStep::Lead(id)
    }

    /// Ends a load for its leader and its followers.
    pub fn complete_load(&mut self, key: &SharedAnalyzerWorkspaceLoadKey, id: u64, result: LoadResult)
        requires
            old(self)@.wf(),
            old(self)@.loads.contains_key(key@),
            old(self)@.loads[key@] == id,
        ensures
            final(self)@ == old(self)@.load_ended(key@, id, load_result_view(result)),
            final(self)@.wf(),
    {
        self.loads.remove(key);
        self.load_results.insert(id, Some(result));
        proof {
            let s = old(self)@;
            let t = s.load_ended(key@, id, load_result_view(result));
            assert(self@.load_results =~= t.load_results);
            assert(self@.worlds =~= t.worlds);
            assert(self@.views =~= t.views);
            assert(self@ =~= t);
            assert(!s.load_finished(s.loads[key@]));
            assert forall|k: WorkspaceLoadKeyView| #[trigger] t.loads.contains_key(k) implies !t.load_finished(t.loads[k]) by {
                assert(s.loads.contains_key(k) && s.loads.contains_key(key@));
            }
            assert forall|j: WorkspaceLoadKeyView, k: WorkspaceLoadKeyView|
                #[trigger] t.loads.contains_key(j) && #[trigger] t.loads.contains_key(k) && t.loads[j] == t.loads[k] implies j
                == k by {
                assert(s.loads.contains_key(j) && s.loads.contains_key(k));
            }
            assert forall|k: WorkspaceLoadKeyView, i: int|
                #[trigger] t.loads.contains_key(k) && 0 <= i < t.operations.queue(k.world).len() implies t.operations.records[(
            #[trigger] t.operations.queue(k.world)[i]).1].pending_loads.contains(t.loads[k]) by {
                assert(s.loads.contains_key(k));
            }
        }
    }

    /// Carries the operation of a token on.
    pub fn reload_continuation(
        &mut self,
        key: &SharedAnalyzerBackendKey,
        token: Option<SharedAnalyzerOperationToken>,
    ) -> (r: Option<u64>)
        requires
            old(self)@.wf(),
            token matches Some(t) ==> t.generation < u64::MAX,
        ensures
            final(self)@.wf(),
            r matches Some(id) ==> {
                &&& token is Some && token->0.operation == Some(id)
                &&& final(self)@ == old(self)@.with_operations(
                    old(self)@.operations.with_record(
                        id,
                        ReloadView { generation: (token->0.generation + 1) as u64, ..old(self)@.operations.records[id] },
                    ),
                )
            },
            r is None ==> final(self)@ == old(self)@,
            r is None <==> !(token matches Some(t) && t.operation matches Some(id) && !old(self)@.operations.finished(id)
                && old(self)@.operations.at_front(key@, id) && old(self)@.operations.records[id].generation == t.generation),
    {
        let r = self.operations.reload_continuation(key, token);
        proof {
            let s = old(self)@;
            assert(self@ =~= s.with_operations(self.operations@));
            match r {
                Some(id) => {
                    let record = ReloadView { generation: (token->0.generation + 1) as u64, ..s.operations.records[id] };
                    assert(!s.operations.finished(s.operations.queue(key@.shared_world)[0].1));
                    lemma_record_turns(s.operations, id, record);
                    lemma_no_new_turns(s, self.operations@);
                },
                None => {
                    assert(self@ =~= s);
                },
            }
        }
        r
    }

    /// Whether the operation is at the front of its queue under the key given.
    pub fn begin_operation_phase(&self, key: &SharedAnalyzerBackendKey, id: u64) -> (r: bool)
        ensures
            r == self@.operations.at_front(key@, id),
    {
        self.operations.begin_operation_phase(key, id)
    }

    pub fn finish_operation(&mut self, key: &SharedAnalyzerBackendKey, id: u64, result: OperationResult) -> (r: bool)
        requires
            old(self)@.wf(),
        ensures
            r == old(self)@.operations.at_front(key@, id),
            r ==> final(self)@ == old(self)@.with_operations(
                old(self)@.operations.closed_record(id, result_view(result)).with_queue(
                    key@.shared_world,
                    old(self)@.operations.queue(key@.shared_world).drop_first(),
                ),
            ),
            !r ==> final(self)@ == old(self)@,
            final(self)@.wf(),
    {
        let r = self.operations.finish_operation(key, id, result);
        proof {
            let s = old(self)@;
            assert(self@ =~= s.with_operations(self.operations@));
            if r {
                let queue = s.operations.queue(key@.shared_world);
                assert(queue[0] == (key@, id));
                assert(without(queue, (key@, id)) == queue.drop_first());
                lemma_unqueue_turns(s.operations, key@.shared_world, (key@, id), result_view(result));
                lemma_no_new_turns(s, self.operations@);
            } else {
                assert(self@ =~= s);
            }
        }
        r
    }

    pub fn cancel_operation(&mut self, key: &SharedAnalyzerBackendKey, id: u64, error: String) -> (r: bool)
        requires
            old(self)@.wf(),
        ensures
            r == old(self)@.operations.queue(key@.shared_world).contains((key@, id)),
            r ==> final(self)@ == old(self)@.with_operations(
                old(self)@.operations.closed_record(id, ResultView::Failed(error@)).with_queue(
                    key@.shared_world,
                    without(old(self)@.operations.queue(key@.shared_world), (key@, id)),
                ),
            ),
            !r ==> final(self)@ == old(self)@,
            final(self)@.wf(),
    {
        let r = self.operations.cancel_operation(key, id, error);
        proof {
            let s = old(self)@;
            assert(self@ =~= s.with_operations(self.operations@));
            if r {
                lemma_unqueue_turns(s.operations, key@.shared_world, (key@, id), ResultView::Failed(error@));
                lemma_no_new_turns(s, self.operations@);
            } else {
                assert(self@ =~= s);
            }
        }
        r
    }

    pub fn begin_normal_operation(&mut self, key: &SharedAnalyzerBackendKey) -> (id: u64)
        requires
            old(self)@.wf(),
            old(self)@.operations.next < u64::MAX,
        ensures
            id == old(self)@.operations.next,
            final(self)@ == old(self)@.with_operations(old(self)@.operations.normal_begun(key@.shared_world)),
            final(self)@.wf(),
    {
        let id = self.operations.begin_normal_operation(key);
        proof {
            let s = old(self)@;
            let ops = s.operations.normal_begun(key@.shared_world);
            assert(self@ =~= s.with_operations(ops));
            assert forall|w: WorldKeyView, i: int| 0 <= i < ops.queue(w).len() implies turn_kept(s.operations, ops, w, (#[trigger] ops.queue(w)[i]).1) by {
                assert(ops.queue(w) == s.operations.queue(w));
                assert(!s.operations.finished(s.operations.queue(w)[i].1));
            }
            lemma_no_new_turns(s, ops);
        }
        id
    }

    pub fn normal_operation_ready(&self, world: &SharedAnalyzerWorldKey, id: u64) -> (r: bool)
        requires
            self@.wf(),
        ensures
            r == self@.operations.normal_ready(world@, id),
    {
        self.operations.normal_operation_ready(world, id)
    }

    pub fn finish_normal_operation(
        &mut self,
        key: &SharedAnalyzerBackendKey,
        id: u64,
        result: OperationResult,
    ) -> (r: bool)
        requires
            old(self)@.wf(),
        ensures
            r == old(self)@.operations.normal(key@.shared_world).contains(id),
            r ==> final(self)@ == old(self)@.with_operations(
                old(self)@.operations.closed_record(id, result_view(result)).with_normal(
                    key@.shared_world,
                    without(old(self)@.operations.normal(key@.shared_world), id),
                ),
            ),
            !r ==> final(self)@ == old(self)@,
            final(self)@.wf(),
    {
        let r = self.operations.finish_normal_operation(key, id, result);
        proof {
            let s = old(self)@;
            assert(self@ =~= s.with_operations(self.operations@));
            if r {
                let ops = self.operations@;
                assert forall|w: WorldKeyView, i: int| 0 <= i < ops.queue(w).len() implies turn_kept(s.operations, ops, w, (#[trigger] ops.queue(w)[i]).1) by {
                    assert(ops.queue(w) == s.operations.queue(w));
                    assert(s.operations.queue(w)[i].1 == ops.queue(w)[i].1);
                }
                lemma_no_new_turns(s, ops);
            } else {
                assert(self@ =~= s);
            }
        }
        r
    }

    /// The operation at the front of the world's queue.
    pub fn active_operation(&self, key: &SharedAnalyzerBackendKey) -> (r: Option<u64>)
        ensures
            r == self@.operations.active(key@.shared_world),
    {
        self.operations.active_operation(&key.shared_world)
    }

    pub fn mark_turn_ready(&mut self, id: u64)
        requires
            old(self)@.wf(),
        ensures
            final(self)@.wf(),
            old(self)@.operations.records.contains_key(id) ==> final(self)@ == old(self)@.with_operations(
                old(self)@.operations.with_record(
                    id,
                    ReloadView { turn_ready: true, ..old(self)@.operations.records[id] },
                ),
            ),
            !old(self)@.operations.records.contains_key(id) ==> final(self)@ == old(self)@,
    {
        self.operations.mark_turn_ready(id);
        proof {
            let s = old(self)@;
            assert(self@ =~= s.with_operations(self.operations@));
            if s.operations.records.contains_key(id) {
                let record = ReloadView { turn_ready: true, ..s.operations.records[id] };
                lemma_record_turns(s.operations, id, record);
                lemma_no_new_turns(s, self.operations@);
            } else {
                assert(self@ =~= s);
            }
        }
    }

    pub fn set_keys(&mut self, id: u64, keys: Vec<ProcMacroSpawnKey>)
        requires
            old(self)@.wf(),
        ensures
            final(self)@.wf(),
            old(self)@.operations.records.contains_key(id) ==> final(self)@ == old(self)@.with_operations(
                old(self)@.operations.with_record(
                    id,
                    ReloadView { keys: keys.deep_view(), ..old(self)@.operations.records[id] },
                ),
            ),
            !old(self)@.operations.records.contains_key(id) ==> final(self)@ == old(self)@,
    {
        let ghost model = keys.deep_view();
        self.operations.set_keys(id, keys);
        proof {
            let s = old(self)@;
            assert(self@ =~= s.with_operations(self.operations@));
            if s.operations.records.contains_key(id) {
                let record = ReloadView { keys: model, ..s.operations.records[id] };
                lemma_record_turns(s.operations, id, record);
                lemma_no_new_turns(s, self.operations@);
            } else {
                assert(self@ =~= s);
            }
        }
    }

    pub fn operation_finished(&self, id: u64) -> (r: bool)
        ensures
            r == self@.operations.finished(id),
    {
        self.operations.finished(id)
    }

    pub fn operation_generation(&self, id: u64) -> (r: u64)
        ensures
            r == (if self@.operations.records.contains_key(id) { self@.operations.records[id].generation } else { 0 }),
    {
        self.operations.generation(id)
    }

    pub fn operation_turn_ready(&self, id: u64) -> (r: bool)
        ensures
            r == (self@.operations.records.contains_key(id) && self@.operations.records[id].turn_ready),
    {
        self.operations.turn_ready(id)
    }

    pub fn operation_keys(&self, id: u64) -> (r: Option<Vec<ProcMacroSpawnKey>>)
        ensures
            match r {
                Some(keys) => self@.operations.in_turn(id) && keys.deep_view() == self@.operations.records[id].keys,
                None => !self@.operations.in_turn(id),
            },
    {
        self.operations.active_keys(id)
    }

    /// Whether a queued operation waits for a normal one.
    pub fn operation_awaits(&self, id: u64, normal: u64) -> (r: bool)
        ensures
            r == (self@.operations.records.contains_key(id) && self@.operations.records[id].pending_normal.contains(normal)),
    {
        self.operations.awaits_normal(id, normal)
    }
}

/// What a session does with the result of a load it waited for: a leader takes it as it is, a
/// follower takes a success and asks again after a failure.
pub fn take_load_result(leader: bool, result: LoadResult) -> (r: Option<LoadResult>)
    ensures
        r == (if leader || result is Ok { Some(result) } else { None }),
{
    if leader || result.is_ok() {
        Some(result)
    } else {
        None
    }
}

/// While an explicit operation has its turn, nothing is being loaded into its world.
pub proof fn law_explicit_turn_excludes_loads(s: RegistryView, key: BackendKeyView, id: u64, load: WorkspaceLoadKeyView)
    requires
        s.wf(),
        s.operations.at_front(key, id),
        s.operation_wait(key.shared_world, id) == OperationWait::Ready,
        s.loads.contains_key(load),
    ensures
        load.world != key.shared_world,
{
    if load.world == key.shared_world {
        assert(s.operations.queue(load.world)[0].1 == id);
        let pending = s.operations.records[id].pending_loads;
        assert(pending.contains(s.loads[load]));
        lemma_first_open_load(s, pending, s.loads[load]);
    }
}

proof fn lemma_first_open_load(s: RegistryView, ids: Seq<u64>, id: u64)
    requires
        ids.contains(id),
        !s.load_finished(id),
    ensures
        s.first_open_load(ids) is Some,
    decreases ids.len(),
{
    let i = ids.index_of(id);
    if i > 0 {
        assert(ids.drop_first()[i - 1] == id);
        lemma_first_open_load(s, ids.drop_first(), id);
    }
}

/// A project is loaded once at a time: whoever asks after the leader, and before the load is over
/// or an explicit operation is queued, follows the same load.
pub proof fn law_one_leader_per_load(s: RegistryView, key: WorkspaceLoadKeyView, loaded: Option<usize>)
    requires
        s.wf(),
        s.next_load < u64::MAX,
        s.load_step(key, None) is Lead,
    ensures
        s.load_begun(key).load_step(key, loaded) == LoadStep::Follow(s.next_load),
{
}

/// Sessions that register under equal world keys use the same world.
pub proof fn law_equal_keys_share_a_world(s: RegistryView, key: WorldKeyView)
    requires
        s.next_world < u64::MAX,
    ensures
        s.world_opened(key).world_number(key) == s.world_number(key),
        s.world_opened(key).world_retained(key).world_number(key) == s.world_number(key),
{
}

/// Worlds of different keys are different worlds, in whatever order they are opened.
pub proof fn law_different_keys_have_different_worlds(s: RegistryView, j: WorldKeyView, k: WorldKeyView)
    requires
        s.wf(),
        s.next_world < u64::MAX - 1,
    ensures
        ({
            let opened = s.world_opened(j).world_opened(k);
            &&& opened.world_number(j) == s.world_number(j)
            &&& opened.world_number(k) == s.world_opened(j).world_number(k)
            &&& opened.world_number(j) == opened.world_number(k) <==> j == k
        }),
{
}

/// A workspace that is loaded is taken as it is: no load begins, and the registry stays as it was.
pub proof fn law_loaded_workspace_is_reused(s: RegistryView, key: WorkspaceLoadKeyView, index: usize)
    requires
        s.wf(),
        s.operations.active(key.world) is None,
        !s.loads.contains_key(key),
    ensures
        s.load_step(key, Some(index)) == LoadStep::Loaded(index),
{
}

/// A registration counts its world and its view once more, and no other.
pub proof fn law_registration_counts_once(s: RegistryView, key: BackendKeyView, view: WorkspaceViewModel)
    requires
        s.wf(),
        s.next_world < u64::MAX,
        s.world_sessions(key.shared_world) < usize::MAX,
        s.view_sessions(key) < usize::MAX,
    ensures
        ({
            let r = s.joining(key.shared_world).registered(key, view);
            &&& r.wf()
            &&& r.world_sessions(key.shared_world) == s.world_sessions(key.shared_world) + 1
            &&& r.view_sessions(key) == s.view_sessions(key) + 1
            &&& forall|w: WorldKeyView| w != key.shared_world ==> #[trigger] r.world_sessions(w) == s.world_sessions(w)
            &&& forall|k: BackendKeyView| k != key ==> #[trigger] r.view_sessions(k) == s.view_sessions(k)
        }),
{
}

/// The worlds without the one of the key, where it has no sessions.
pub open spec fn worlds_in_use(s: RegistryView, key: WorldKeyView) -> Map<WorldKeyView, WorldEntryView> {
    if s.world_sessions(key) == 0 {
        s.worlds.remove(key)
    } else {
        s.worlds
    }
}

/// A registration that fails leaves the views and the worlds in use as they were: the count of its world
/// is taken back, and a world that has no other session is gone, whether it was opened for it or not.
pub proof fn law_failed_registration_leaves_no_trace(s: RegistryView, key: BackendKeyView)
    requires
        s.next_world < u64::MAX,
        s.world_sessions(key.shared_world) < usize::MAX,
    ensures
        s.joining(key.shared_world).world_released(key.shared_world).worlds == worlds_in_use(s, key.shared_world),
        s.joining(key.shared_world).world_released(key.shared_world).views == s.views,
{
    assert(s.joining(key.shared_world).world_released(key.shared_world).worlds =~= worlds_in_use(s, key.shared_world));
}

/// A session that leaves undoes its counting: where it was the only one, its world and view are
/// gone, and otherwise the others' counts are as before.
pub proof fn law_leaving_undoes_joining(s: RegistryView, key: BackendKeyView, view: WorkspaceViewModel)
    requires
        s.next_world < u64::MAX,
        s.world_sessions(key.shared_world) < usize::MAX,
        s.views.contains_key(key) ==> 0 < s.views[key].client_sessions < usize::MAX,
    ensures
        ({
            let joined = s.world_opened(key.shared_world).world_retained(key.shared_world).registered(key, view);
            let left = joined.unregistered(key);
            &&& left.worlds == worlds_in_use(s, key.shared_world)
            &&& left.views.dom() == s.views.dom()
            &&& forall|k: BackendKeyView| #[trigger] s.views.contains_key(k) ==> left.views[k].client_sessions == s.views[k].client_sessions
            &&& forall|k: BackendKeyView| #[trigger] s.views.contains_key(k) && k != key ==> left.views[k] == s.views[k]
        }),
{
    let joined = s.world_opened(key.shared_world).world_retained(key.shared_world).registered(key, view);
    let left = joined.unregistered(key);
    assert(left.worlds =~= worlds_in_use(s, key.shared_world));
    assert(left.views.dom() =~= s.views.dom());
}

/// A session that asks for a workspace waits while an operation is queued for the world. Else it follows the
/// load of the workspace that is under way, takes the workspace that is there, or loads it itself.
pub proof fn law_workspaces_are_loaded_once(s: RegistryView, key: WorkspaceLoadKeyView, loaded: Option<usize>)
    ensures
        s.operations.queue(key.world).len() > 0 ==> s.load_step(key, loaded) == LoadStep::WaitOperation(
            s.operations.queue(key.world)[0].1,
        ),
        s.operations.queue(key.world).len() == 0 && s.loads.contains_key(key) ==> s.load_step(key, loaded) == LoadStep::Follow(
            s.loads[key],
        ),
        s.operations.queue(key.world).len() == 0 && !s.loads.contains_key(key) ==> (match loaded {
            Some(index) => s.load_step(key, loaded) == LoadStep::Loaded(index),
            None => s.load_step(key, loaded) == LoadStep::Lead(s.next_load),
        }),
{
}

/// A load that begins is under way and open, under a number of its own, and one that ends is no longer under
/// way and has its result. Other loads are not touched.
pub proof fn law_loads_begin_and_end(s: RegistryView, key: WorkspaceLoadKeyView, id: u64, result: LoadResultView, other: WorkspaceLoadKeyView)
    requires
        s.next_load < u64::MAX,
        other != key,
    ensures
        ({
            let r = s.load_begun(key);
            &&& r.loads.contains_key(key) && r.loads[key] == s.next_load && !r.load_finished(s.next_load)
            &&& r.next_load == s.next_load + 1
            &&& r.loads.contains_key(other) == s.loads.contains_key(other)
            &&& s.loads.contains_key(other) ==> r.loads[other] == s.loads[other]
        }),
        ({
            let r = s.load_ended(key, id, result);
            &&& !r.loads.contains_key(key) && r.load_results.contains_key(id) && r.load_results[id] == Some(result)
            &&& r.loads.contains_key(other) == s.loads.contains_key(other)
            &&& s.loads.contains_key(other) ==> r.loads[other] == s.loads[other]
        }),
{
}

/// A world lives as long as a session uses it: it goes with the last one, and till then is counted once less
/// and keeps its number. A view does too, and keeps its content. Other worlds and views are not touched.
pub proof fn law_world_goes_with_its_last_session(s: RegistryView, key: BackendKeyView, world: WorldKeyView, view: BackendKeyView)
    requires
        world != key.shared_world,
        view != key,
    ensures
        ({
            let r = s.unregistered(key);
            let own = key.shared_world;
            &&& r.worlds.contains_key(own) <==> s.worlds.contains_key(own) && s.worlds[own].client_sessions > 1
            &&& r.worlds.contains_key(own) ==> r.worlds[own].client_sessions == s.worlds[own].client_sessions - 1
                && r.worlds[own].world == s.worlds[own].world
            &&& r.views.contains_key(key) <==> s.views.contains_key(key) && s.views[key].client_sessions > 1
            &&& r.views.contains_key(key) ==> r.views[key].client_sessions == s.views[key].client_sessions - 1 && r.views[key].view
                == s.views[key].view
            &&& r.worlds.contains_key(world) == s.worlds.contains_key(world) && (s.worlds.contains_key(world) ==> r.worlds[world]
                == s.worlds[world])
            &&& r.views.contains_key(view) == s.views.contains_key(view) && (s.views.contains_key(view) ==> r.views[view]
                == s.views[view])
        }),
{
}

proof fn lemma_open_load(s: RegistryView, ids: Seq<u64>)
    ensures
        match s.first_open_load(ids) {
            None => forall|i: int| 0 <= i < ids.len() ==> s.load_finished(#[trigger] ids[i]),
            Some(id) => exists|i: int| 0 <= i < ids.len() && #[trigger] ids[i] == id && !s.load_finished(id),
        },
    decreases ids.len(),
{
    if ids.len() > 0 {
        let rest = ids.drop_first();
        if !s.load_finished(ids[0]) {
            assert(ids[0] == s.first_open_load(ids)->0);
        } else {
            lemma_open_load(s, rest);
            match s.first_open_load(ids) {
                None => {
                    assert forall|i: int| 0 <= i < ids.len() implies s.load_finished(#[trigger] ids[i]) by {
                        if i > 0 {
                            assert(rest[i - 1] == ids[i]);
                        }
                    }
                },
                Some(id) => {
                    let i = choose|i: int| 0 <= i < rest.len() && #[trigger] rest[i] == id && !s.load_finished(id);
                    assert(ids[i + 1] == id);
                },
            }
        }
    }
}

/// A queued operation has its turn only once every load that it waits for has a result. Till then it waits for
/// one of them that has none.
pub proof fn law_turn_comes_after_loads(s: RegistryView, world: WorldKeyView, id: u64)
    ensures
        ({
            let loads = s.operations.records[id].pending_loads;
            let open = exists|i: int|
                0 <= i < loads.len() && s.load_results.contains_key(#[trigger] loads[i]) && s.load_results[loads[i]] is None;
            &&& open ==> (s.operation_wait(world, id) matches OperationWait::Load(load) && s.load_results.contains_key(load)
                && s.load_results[load] is None && loads.contains(load))
            &&& !open ==> s.operation_wait(world, id) == s.operations.queue_wait(world, id)
        }),
{
    let loads = s.operations.records[id].pending_loads;
    lemma_open_load(s, loads);
    match s.first_open_load(loads) {
        None => {
            assert forall|i: int| 0 <= i < loads.len() implies !(s.load_results.contains_key(#[trigger] loads[i])
                && s.load_results[loads[i]] is None) by {
                assert(s.load_finished(loads[i]));
            }
        },
        Some(load) => {
            let i = choose|i: int| 0 <= i < loads.len() && #[trigger] loads[i] == load && !s.load_finished(load);
            assert(s.load_results.contains_key(loads[i]));
        },
    }
}

} // verus!
