//! Turns on shared worlds.
//!
//! An explicit operation, a reload or a rebuild, is queued per world and runs when it is at the
//! front of its queue. A normal operation is registered beside the queue and runs unless an
//! explicit operation that was queued before it is at the front. An operation is known by its
//! number, and its record outlives its turn, so that a late token can still be told apart.
use crate::keys::{BackendKeyView, SharedAnalyzerBackendKey, SharedAnalyzerWorldKey, WorldKeyView};
use crate::ordered::OrderedMap;
use crate::spawn_key::{ProcMacroSpawnKey, SpawnKeyView};
use crate::tokens::{same, Tokens};
use vstd::prelude::*;

verus! {

/// How an operation ended: the workspaces it left behind, or why it failed.
pub type OperationResult = Result<Vec<usize>, String>;

#[verifier::ext_equal]
pub enum ResultView {
    Done(Seq<usize>),
    Failed(Seq<char>),
}

pub open spec fn result_view(result: OperationResult) -> ResultView {
    match result {
        Ok(indexes) => ResultView::Done(indexes@),
        Err(error) => ResultView::Failed(error@),
    }
}

/// The record of one operation.
#[derive(Debug)]
pub struct SharedAnalyzerReload {
    pub pending_loads: Vec<u64>,
    pub pending_normal_operations: Vec<u64>,
    pub keys: Vec<ProcMacroSpawnKey>,
    pub generation: u64,
    pub turn_ready: bool,
    pub result: Option<OperationResult>,
}

#[verifier::ext_equal]
pub struct ReloadView {
    pub pending_loads: Seq<u64>,
    pub pending_normal: Seq<u64>,
    pub keys: Seq<SpawnKeyView>,
    pub generation: u64,
    pub turn_ready: bool,
    pub result: Option<ResultView>,
}

impl View for SharedAnalyzerReload {
    type V = ReloadView;

    open spec fn view(&self) -> ReloadView {
        ReloadView {
            pending_loads: self.pending_loads@,
            pending_normal: self.pending_normal_operations@,
            keys: self.keys.deep_view(),
            generation: self.generation,
            turn_ready: self.turn_ready,
            result: match self.result {
                Some(result) => Some(result_view(result)),
                None => None,
            },
        }
    }
}

/// A claim to an operation, as far as it had got when the token was given.
#[derive(Clone, Copy, Debug, PartialEq, Eq, Structural)]
pub struct SharedAnalyzerOperationToken {
    pub session_id: u64,
    pub operation: Option<u64>,
    pub generation: u64,
}

#[derive(Clone, Copy, Debug, PartialEq, Eq, Structural)]
pub enum SharedAnalyzerOperationKind {
    Explicit,
    Normal,
}

/// What an operation has to wait for next.
#[derive(Clone, Copy, Debug, PartialEq, Eq, Structural)]
pub enum OperationWait {
    Ready,
    Load(u64),
    Operation(u64),
    Unregistered,
}

/// The queues, the normal operations and the records.
pub struct SharedOperations {
    queues: OrderedMap<SharedAnalyzerWorldKey, Vec<(SharedAnalyzerBackendKey, u64)>>,
    normals: OrderedMap<SharedAnalyzerWorldKey, Vec<u64>>,
    records: OrderedMap<u64, SharedAnalyzerReload>,
    next: u64,
}

#[verifier::ext_equal]
pub struct OperationsView {
    pub queues: Map<WorldKeyView, Seq<(BackendKeyView, u64)>>,
    pub normals: Map<WorldKeyView, Seq<u64>>,
    pub records: Map<u64, ReloadView>,
    pub next: u64,
}

impl View for SharedOperations {
    type V = OperationsView;

    closed spec fn view(&self) -> OperationsView {
        OperationsView {
            queues: self.queues@.map_values(|q: Vec<(SharedAnalyzerBackendKey, u64)>| q.deep_view()),
            normals: self.normals@.map_values(|n: Vec<u64>| n@),
            records: self.records@.map_values(|r: SharedAnalyzerReload| r@),
            next: self.next,
        }
    }
}

impl OperationsView {
    /// The operations queued for a world, oldest first.
    pub open spec fn queue(self, world: WorldKeyView) -> Seq<(BackendKeyView, u64)> {
        if self.queues.contains_key(world) {
            self.queues[world]
        } else {
            Seq::empty()
        }
    }

    /// The normal operations registered for a world.
    pub open spec fn normal(self, world: WorldKeyView) -> Seq<u64> {
        if self.normals.contains_key(world) {
            self.normals[world]
        } else {
            Seq::empty()
        }
    }

    pub open spec fn active(self, world: WorldKeyView) -> Option<u64> {
        if self.queue(world).len() > 0 {
            Some(self.queue(world)[0].1)
        } else {
            None
        }
    }

    /// The operation is at the front of its queue.
    pub open spec fn at_front(self, key: BackendKeyView, id: u64) -> bool {
        self.queue(key.shared_world).len() > 0 && self.queue(key.shared_world)[0] == (key, id)
    }

    pub open spec fn finished(self, id: u64) -> bool {
        !self.records.contains_key(id) || self.records[id].result is Some
    }

    /// The operation's turn has come and is not over.
    pub open spec fn in_turn(self, id: u64) -> bool {
        self.records.contains_key(id) && self.records[id].turn_ready && self.records[id].result is None
    }

    /// Every registered operation has an open record and belongs to the world it is listed under,
    /// and no operation is registered twice.
    pub open spec fn wf(self) -> bool {
        &&& forall|w: WorldKeyView| #[trigger] self.queues.contains_key(w) ==> self.queues[w].len() > 0
        &&& forall|w: WorldKeyView| #[trigger] self.normals.contains_key(w) ==> self.normals[w].len() > 0
        &&& forall|w: WorldKeyView, i: int|
            0 <= i < self.queue(w).len() ==> (#[trigger] self.queue(w)[i]).0.shared_world == w && !self.finished(
                self.queue(w)[i].1,
            )
        &&& forall|w: WorldKeyView, i: int| 0 <= i < self.normal(w).len() ==> !self.finished(#[trigger] self.normal(w)[i])
        &&& forall|v: WorldKeyView, i: int, w: WorldKeyView, j: int|
            0 <= i < self.queue(v).len() && 0 <= j < self.queue(w).len() && (#[trigger] self.queue(v)[i]).1 == (
            #[trigger] self.queue(w)[j]).1 ==> v == w && i == j
        &&& forall|v: WorldKeyView, i: int, w: WorldKeyView, j: int|
            0 <= i < self.normal(v).len() && 0 <= j < self.normal(w).len() && (#[trigger] self.normal(v)[i]) == (
            #[trigger] self.normal(w)[j]) ==> v == w && i == j
        &&& forall|v: WorldKeyView, i: int, w: WorldKeyView, j: int|
            0 <= i < self.queue(v).len() && 0 <= j < self.normal(w).len() ==> (#[trigger] self.queue(v)[i]).1 != (
            #[trigger] self.normal(w)[j])
        &&& forall|id: u64| #[trigger] self.records.contains_key(id) ==> id < self.next
    }

    pub open spec fn with_record(self, id: u64, record: ReloadView) -> OperationsView {
        OperationsView { records: self.records.insert(id, record), ..self }
    }

    /// A world's queue, the world left out where nothing is queued.
    pub open spec fn with_queue(self, world: WorldKeyView, queue: Seq<(BackendKeyView, u64)>) -> OperationsView {
        OperationsView {
            queues: if queue.len() == 0 {
                self.queues.remove(world)
            } else {
                self.queues.insert(world, queue)
            },
            ..self
        }
    }

    pub open spec fn with_normal(self, world: WorldKeyView, normal: Seq<u64>) -> OperationsView {
        OperationsView {
            normals: if normal.len() == 0 {
                self.normals.remove(world)
            } else {
                self.normals.insert(world, normal)
            },
            ..self
        }
    }

    pub open spec fn enqueued(self, key: BackendKeyView, loads: Seq<u64>) -> OperationsView {
        let world = key.shared_world;
        OperationsView { next: (self.next + 1) as u64, ..self }.with_queue(
            world,
            self.queue(world).push((key, self.next)),
        ).with_record(self.next, new_record(loads, self.normal(world)))
    }

    pub open spec fn normal_begun(self, world: WorldKeyView) -> OperationsView {
        OperationsView { next: (self.next + 1) as u64, ..self }.with_normal(
            world,
            self.normal(world).push(self.next),
        ).with_record(self.next, new_record(Seq::empty(), Seq::empty()))
    }

    pub open spec fn closed_record(self, id: u64, result: ResultView) -> OperationsView {
        self.with_record(id, ReloadView { result: Some(result), ..self.records[id] })
    }

    /// The first normal operation that a queued operation still waits for.
    pub open spec fn first_open(self, ids: Seq<u64>) -> Option<u64>
        decreases ids.len(),
    {
        if ids.len() == 0 {
            None
        } else if !self.finished(ids[0]) {
            Some(ids[0])
        } else {
            self.first_open(ids.drop_first())
        }
    }

    /// What a queued operation waits for, once the loads that it waits for are over.
    pub open spec fn queue_wait(self, world: WorldKeyView, id: u64) -> OperationWait {
        match self.first_open(self.records[id].pending_normal) {
            Some(normal) => OperationWait::Operation(normal),
            None => if self.active(world) == Some(id) {
                OperationWait::Ready
            } else if exists|i: int| 0 <= i < self.queue(world).len() && (#[trigger] self.queue(world)[i]).1 == id {
                OperationWait::Operation(self.queue(world)[0].1)
            } else {
                OperationWait::Unregistered
            },
        }
    }

    /// Whether a normal operation may run: nothing is queued, or what is at the front waits for it.
    pub open spec fn normal_ready(self, world: WorldKeyView, id: u64) -> bool {
        match self.active(world) {
            None => true,
            Some(active) => self.records.contains_key(active) && self.records[active].pending_normal.contains(id),
        }
    }
}

pub open spec fn new_record(loads: Seq<u64>, normal: Seq<u64>) -> ReloadView {
    ReloadView {
        pending_loads: loads,
        pending_normal: normal,
        keys: Seq::empty(),
        generation: 0,
        turn_ready: false,
        result: None,
    }
}

fn copy_ids(list: &Vec<u64>) -> (r: Vec<u64>)
    ensures
        r@ == list@,
{
    let mut r: Vec<u64> = Vec::new();
    let mut i: usize = 0;
    while i < list.len()
        invariant
            i <= list.len(),
            r@ == list@.take(i as int),
        decreases list.len() - i,
    {
        r.push(list[i]);
        proof {
            assert(list@.take(i + 1) =~= list@.take(i as int).push(list@[i as int]));
        }
        i = i + 1;
    }
    proof {
        assert(list@.take(i as int) =~= list@);
    }
    r
}

fn contains_id(list: &Vec<u64>, id: u64) -> (r: bool)
    ensures
        r == list@.contains(id),
{
    let mut i: usize = 0;
    while i < list.len()
        invariant
            i <= list.len(),
            forall|j: int| 0 <= j < i ==> list@[j] != id,
        decreases list.len() - i,
    {
        if list[i] == id {
            proof {
                assert(list@[i as int] == id);
            }
            return true;
        }
        i = i + 1;
    }
    false
}

impl SharedOperations {
    pub fn new() -> (r: Self)
        ensures
            r@ == (OperationsView { queues: Map::empty(), normals: Map::empty(), records: Map::empty(), next: 0 }),
            r@.wf(),
    {
        let r = SharedOperations { queues: OrderedMap::new(), normals: OrderedMap::new(), records: OrderedMap::new(), next: 0 };
        proof {
            assert(r@ =~= (OperationsView { queues: Map::empty(), normals: Map::empty(), records: Map::empty(), next: 0 }));
        }
        r
    }

    fn set_queue(&mut self, world: &SharedAnalyzerWorldKey, queue: Vec<(SharedAnalyzerBackendKey, u64)>)
        ensures
            final(self)@ == old(self)@.with_queue(world@, queue.deep_view()),
    {
        if queue.len() == 0 {
            self.queues.remove(world);
        } else {
            self.queues.insert(world.duplicate(), queue);
        }
        proof {
            assert(self@.queues =~= old(self)@.with_queue(world@, queue.deep_view()).queues);
            assert(self@.normals =~= old(self)@.normals);
            assert(self@.records =~= old(self)@.records);
        }
    }

    fn take_queue(&mut self, world: &SharedAnalyzerWorldKey) -> (r: Vec<(SharedAnalyzerBackendKey, u64)>)
        ensures
            r.deep_view() == old(self)@.queue(world@),
            final(self)@ == (OperationsView { queues: old(self)@.queues.remove(world@), ..old(self)@ }),
    {
        let r = match self.queues.remove(world) {
            Some(queue) => queue,
            None => Vec::new(),
        };
        proof {
            assert(self@.queues =~= old(self)@.queues.remove(world@));
            assert(self@.normals =~= old(self)@.normals);
            assert(self@.records =~= old(self)@.records);
            assert(r.deep_view() =~= old(self)@.queue(world@));
        }
        r
    }

    fn set_normal(&mut self, world: &SharedAnalyzerWorldKey, normal: Vec<u64>)
        ensures
            final(self)@ == old(self)@.with_normal(world@, normal@),
    {
        if normal.len() == 0 {
            self.normals.remove(world);
        } else {
            self.normals.insert(world.duplicate(), normal);
        }
        proof {
            assert(self@.normals =~= old(self)@.with_normal(world@, normal@).normals);
            assert(self@.queues =~= old(self)@.queues);
            assert(self@.records =~= old(self)@.records);
        }
    }

    fn normal_of(&self, world: &SharedAnalyzerWorldKey) -> (r: Vec<u64>)
        ensures
            r@ == self@.normal(world@),
    {
        match self.normals.get(world) {
            Some(normal) => copy_ids(normal),
            None => {
                let r: Vec<u64> = Vec::new();
                proof {
                    assert(r@ =~= self@.normal(world@));
                }
                r
            },
        }
    }

    fn set_record(&mut self, id: u64, record: SharedAnalyzerReload)
        ensures
            final(self)@ == old(self)@.with_record(id, record@),
    {
        self.records.insert(id, record);
        proof {
            assert(self@.records =~= old(self)@.records.insert(id, record@));
            assert(self@.queues =~= old(self)@.queues);
            assert(self@.normals =~= old(self)@.normals);
        }
    }

    /// Queues an explicit operation behind those of its world. It waits for the loads given and
    /// for the normal operations registered so far.
    pub fn enqueue_operation(&mut self, key: SharedAnalyzerBackendKey, pending_loads: Vec<u64>) -> (id: u64)
        requires
            old(self)@.wf(),
            old(self)@.next < u64::MAX,
        ensures
            id == old(self)@.next,
            final(self)@ == old(self)@.enqueued(key@, pending_loads@),
            final(self)@.wf(),
    {
        let id: u64 = self.next;
        self.next = id + 1;
        let ghost before = self@;
        let world = key.shared_world.duplicate();
        let pending_normal_operations = self.normal_of(&world);
        let mut queue = self.take_queue(&world);
        let ghost old_queue = queue.deep_view();
        queue.push((key, id));
        proof {
            assert(queue.deep_view() =~= old_queue.push((key@, id)));
        }
        self.set_queue(&world, queue);
        let record = SharedAnalyzerReload {
            pending_loads,
            pending_normal_operations,
            keys: Vec::new(),
            generation: 0,
            turn_ready: false,
            result: None,
        };
        proof {
            assert(record.keys.deep_view() =~= Seq::empty());
        }
        self.set_record(id, record);
        proof {
            assert(self@ =~= old(self)@.enqueued(key@, pending_loads@));
            lemma_enqueue_wf(old(self)@, key@, pending_loads@);
        }
        id
    }

    /// Registers a normal operation.
    pub fn begin_normal_operation(&mut self, key: &SharedAnalyzerBackendKey) -> (id: u64)
        requires
            old(self)@.wf(),
            old(self)@.next < u64::MAX,
        ensures
            id == old(self)@.next,
            final(self)@ == old(self)@.normal_begun(key@.shared_world),
            final(self)@.wf(),
    {
        let id: u64 = self.next;
        self.next = id + 1;
        let mut normal = self.normal_of(&key.shared_world);
        normal.push(id);
        self.set_normal(&key.shared_world, normal);
        let record = SharedAnalyzerReload {
            pending_loads: Vec::new(),
            pending_normal_operations: Vec::new(),
            keys: Vec::new(),
            generation: 0,
            turn_ready: false,
            result: None,
        };
        proof {
            assert(record.keys.deep_view() =~= Seq::empty());
        }
        self.set_record(id, record);
        proof {
            assert(self@ =~= old(self)@.normal_begun(key@.shared_world));
            lemma_begin_normal_wf(old(self)@, key@.shared_world);
        }
        id
    }

    /// Whether an operation is over.
    pub fn finished(&self, id: u64) -> (r: bool)
        ensures
            r == self@.finished(id),
    {
        match self.records.get(&id) {
            Some(record) => record.result.is_some(),
            None => true,
        }
    }

    fn first_open(&self, ids: &Vec<u64>) -> (r: Option<u64>)
        ensures
            r == self@.first_open(ids@),
    {
        let mut i: usize = 0;
        proof {
            assert(ids@.skip(0) =~= ids@);
        }
        while i < ids.len()
            invariant
                i <= ids.len(),
                self@.first_open(ids@) == self@.first_open(ids@.skip(i as int)),
            decreases ids.len() - i,
        {
            proof {
                assert(ids@.skip(i as int).drop_first() =~= ids@.skip(i + 1));
            }
            if !self.finished(ids[i]) {
                return Some(ids[i]);
            }
            i = i + 1;
        }
        None
    }

    /// The operation at the front of a world's queue.
    pub fn active_operation(&self, world: &SharedAnalyzerWorldKey) -> (r: Option<u64>)
        ensures
            r == self@.active(world@),
    {
        match self.queues.get(world) {
            Some(queue) => {
                proof {
                    assert(self@.queue(world@) == queue.deep_view());
                }
                if queue.len() > 0 {
                    proof {
                        assert(queue.deep_view()[0].1 == queue@[0].1);
                    }
                    Some(queue[0].1)
                } else {
                    None
                }
            },
            None => None,
        }
    }

    /// What a queued operation waits for next, once its loads are over.
    pub fn wait_in_queue(&self, world: &SharedAnalyzerWorldKey, id: u64) -> (r: OperationWait)
        requires
            self@.records.contains_key(id),
        ensures
            r == self@.queue_wait(world@, id),
    {
        match self.records.get(&id) {
            Some(record) => {
                let normal = self.first_open(&record.pending_normal_operations);
                match normal {
                    Some(normal) => {
                        return OperationWait::Operation(normal);
                    },
                    None => {},
                }
            },
            None => {},
        }
        match self.queues.get(world) {
            Some(queue) => {
                proof {
                    assert(self@.queue(world@) == queue.deep_view());
                }
                if queue.len() == 0 {
                    return OperationWait::Unregistered;
                }
                proof {
                    assert(queue.deep_view()[0].1 == queue@[0].1);
                }
                if queue[0].1 == id {
                    return OperationWait::Ready;
                }
                if queue_holds(queue, id) {
                    return OperationWait::Operation(queue[0].1);
                }
                OperationWait::Unregistered
            },
            None => OperationWait::Unregistered,
        }
    }

    /// Whether a normal operation may run.
    pub fn normal_operation_ready(&self, world: &SharedAnalyzerWorldKey, id: u64) -> (r: bool)
        requires
            self@.wf(),
        ensures
            r == self@.normal_ready(world@, id),
    {
        match self.active_operation(world) {
            None => true,
            Some(active) => match self.records.get(&active) {
                Some(record) => contains_id(&record.pending_normal_operations, id),
                None => false,
            },
        }
    }

    /// What a normal operation waits for next.
    pub fn wait_normal_operation_ready(&self, world: &SharedAnalyzerWorldKey, id: u64) -> (r: OperationWait)
        requires
            self@.wf(),
        ensures
            r == (if !self@.normal(world@).contains(id) {
                OperationWait::Unregistered
            } else if self@.normal_ready(world@, id) {
                OperationWait::Ready
            } else {
                OperationWait::Operation(self@.queue(world@)[0].1)
            }),
    {
        let normal = self.normal_of(world);
        if !contains_id(&normal, id) {
            return OperationWait::Unregistered;
        }
        if self.normal_operation_ready(world, id) {
            return OperationWait::Ready;
        }
        match self.active_operation(world) {
            Some(active) => OperationWait::Operation(active),
            None => OperationWait::Ready,
        }
    }

    /// Whether the operation is at the front of its world's queue under the key given.
    pub fn begin_operation_phase(&self, key: &SharedAnalyzerBackendKey, id: u64) -> (r: bool)
        ensures
            r == self@.at_front(key@, id),
    {
        match self.queues.get(&key.shared_world) {
            Some(queue) => {
                proof {
                    assert(self@.queue(key@.shared_world) == queue.deep_view());
                }
                if queue.len() == 0 {
                    return false;
                }
                proof {
                    assert(queue.deep_view()[0] == (queue@[0].0@, queue@[0].1));
                }
                queue[0].1 == id && same(&queue[0].0, key)
            },
            None => false,
        }
    }

    /// Carries an operation on into its next generation. Only the operation at the front can go
    /// on, and only from the generation that the caller knows.
    pub fn continue_operation(&mut self, key: &SharedAnalyzerBackendKey, id: u64, generation: u64) -> (r: bool)
        requires
            old(self)@.wf(),
            generation < u64::MAX,
        ensures
            r == (old(self)@.at_front(key@, id) && old(self)@.records[id].generation == generation),
            r ==> final(self)@ == old(self)@.with_record(
                id,
                ReloadView { generation: (generation + 1) as u64, ..old(self)@.records[id] },
            ),
            !r ==> final(self)@ == old(self)@,
            final(self)@.wf(),
    {
        if !self.begin_operation_phase(key, id) {
            return false;
        }
        proof {
            assert(!self@.finished(self@.queue(key@.shared_world)[0].1));
        }
        match self.records.remove(&id) {
            Some(record) => {
                if record.generation == generation {
                    let mut next = record;
                    next.generation = generation + 1;
                    self.set_record(id, next);
                    proof {
                        assert(self@ =~= old(self)@.with_record(
                            id,
                            ReloadView { generation: (generation + 1) as u64, ..old(self)@.records[id] },
                        ));
                        lemma_record_wf(old(self)@, id, self@.records[id]);
                    }
                    true
                } else {
                    self.set_record(id, record);
                    proof {
                        assert(self@ =~= old(self)@);
                    }
                    false
                }
            },
            None => {
                proof {
                    assert(self@ =~= old(self)@);
                }
                false
            },
        }
    }

    /// The operation that a token stands for goes on, unless it is over.
    pub fn reload_continuation(
        &mut self,
        key: &SharedAnalyzerBackendKey,
        token: Option<SharedAnalyzerOperationToken>,
    ) -> (r: Option<u64>)
        requires
            old(self)@.wf(),
            token matches Some(t) ==> t.generation < u64::MAX,
        ensures
            final(self)@.wf(),
            r matches Some(id) ==> {
                &&& token is Some && token->0.operation == Some(id)
                &&& old(self)@.at_front(key@, id)
                &&& old(self)@.records[id].generation == token->0.generation
                &&& final(self)@ == old(self)@.with_record(
                    id,
                    ReloadView { generation: (token->0.generation + 1) as u64, ..old(self)@.records[id] },
                )
            },
            r is None ==> final(self)@ == old(self)@,
            r is None <==> !(token matches Some(t) && t.operation matches Some(id) && !old(self)@.finished(id)
                && old(self)@.at_front(key@, id) && old(self)@.records[id].generation == t.generation),
    {
        match token {
            Some(token) => match token.operation {
                Some(id) => {
                    if !self.finished(id) && self.continue_operation(key, id, token.generation) {
                        Some(id)
                    } else {
                        None
                    }
                },
                None => None,
            },
            None => None,
        }
    }

    fn close_record(&mut self, id: u64, result: OperationResult)
        requires
            old(self)@.records.contains_key(id),
        ensures
            final(self)@ == old(self)@.closed_record(id, result_view(result)),
    {
        match self.records.remove(&id) {
            Some(record) => {
                let mut closed = record;
                closed.result = Some(result);
                self.set_record(id, closed);
                proof {
                    assert(self@ =~= old(self)@.closed_record(id, result_view(result)));
                }
            },
            None => {},
        }
    }

    /// Ends the operation at the front of its queue.
    pub fn finish_operation(&mut self, key: &SharedAnalyzerBackendKey, id: u64, result: OperationResult) -> (r: bool)
        requires
            old(self)@.wf(),
        ensures
            r == old(self)@.at_front(key@, id),
            r ==> final(self)@ == old(self)@.closed_record(id, result_view(result)).with_queue(
                key@.shared_world,
                old(self)@.queue(key@.shared_world).drop_first(),
            ),
            !r ==> final(self)@ == old(self)@,
            final(self)@.wf(),
    {
        if !self.begin_operation_phase(key, id) {
            return false;
        }
        proof {
            assert(!self@.finished(self@.queue(key@.shared_world)[0].1));
        }
        self.close_record(id, result);
        let mut queue = self.take_queue(&key.shared_world);
        let ghost all = queue.deep_view();
        queue.remove(0);
        proof {
            assert(queue.deep_view() =~= all.drop_first());
        }
        self.set_queue(&key.shared_world, queue);
        proof {
            assert(all.remove(0) =~= all.drop_first());
            assert(self@ =~= old(self)@.closed_record(id, result_view(result)).with_queue(key@.shared_world, all.drop_first()));
            lemma_unqueue_wf(old(self)@, key@.shared_world, 0, result_view(result));
        }
        true
    }

    /// Ends an operation wherever it is queued.
    pub fn cancel_operation(&mut self, key: &SharedAnalyzerBackendKey, id: u64, error: String) -> (r: bool)
        requires
            old(self)@.wf(),
        ensures
            r == old(self)@.queue(key@.shared_world).contains((key@, id)),
            r ==> final(self)@ == old(self)@.closed_record(id, ResultView::Failed(error@)).with_queue(
                key@.shared_world,
                without(old(self)@.queue(key@.shared_world), (key@, id)),
            ),
            !r ==> final(self)@ == old(self)@,
            final(self)@.wf(),
    {
        let at = match self.queues.get(&key.shared_world) {
            Some(queue) => {
                proof {
                    assert(self@.queue(key@.shared_world) == queue.deep_view());
                }
                position_in_queue(queue, key, id)
            },
            None => None,
        };
        match at {
            Some(at) => {
                let ghost world = key@.shared_world;
                let ghost all = self@.queue(world);
                proof {
                    assert(!self@.finished(self@.queue(world)[at as int].1));
                }
                self.close_record(id, Err(error));
                let mut queue = self.take_queue(&key.shared_world);
                queue.remove(at);
                proof {
                    assert(queue.deep_view() =~= all.remove(at as int));
                    lemma_without(all, (key@, id), at as int);
                }
                self.set_queue(&key.shared_world, queue);
                proof {
                    assert(self@ =~= old(self)@.closed_record(id, ResultView::Failed(error@)).with_queue(world, all.remove(at as int)));
                    lemma_unqueue_wf(old(self)@, world, at as int, ResultView::Failed(error@));
                }
                true
            },
            None => false,
        }
    }

    /// Ends a normal operation.
    pub fn finish_normal_operation(
        &mut self,
        key: &SharedAnalyzerBackendKey,
        id: u64,
        result: OperationResult,
    ) -> (r: bool)
        requires
            old(self)@.wf(),
        ensures
            r == old(self)@.normal(key@.shared_world).contains(id),
            r ==> final(self)@ == old(self)@.closed_record(id, result_view(result)).with_normal(
                key@.shared_world,
                without(old(self)@.normal(key@.shared_world), id),
            ),
            !r ==> final(self)@ == old(self)@,
            final(self)@.wf(),
    {
        let mut normal = self.normal_of(&key.shared_world);
        match position_of_id(&normal, id) {
            Some(at) => {
                let ghost world = key@.shared_world;
                let ghost all = self@.normal(world);
                proof {
                    assert(!self@.finished(self@.normal(world)[at as int]));
                    lemma_without(all, id, at as int);
                }
                normal.remove(at);
                self.close_record(id, result);
                self.set_normal(&key.shared_world, normal);
                proof {
                    assert(self@ =~= old(self)@.closed_record(id, result_view(result)).with_normal(world, all.remove(at as int)));
                    lemma_unnormal_wf(old(self)@, world, at as int, result_view(result));
                }
                true
            },
            None => false,
        }
    }

    /// Notes that an operation's turn has come.
    pub fn mark_turn_ready(&mut self, id: u64)
        requires
            old(self)@.wf(),
        ensures
            final(self)@.wf(),
            old(self)@.records.contains_key(id) ==> final(self)@ == old(self)@.with_record(
                id,
                ReloadView { turn_ready: true, ..old(self)@.records[id] },
            ),
            !old(self)@.records.contains_key(id) ==> final(self)@ == old(self)@,
    {
        match self.records.remove(&id) {
            Some(record) => {
                let mut next = record;
                next.turn_ready = true;
                self.set_record(id, next);
                proof {
                    assert(self@ =~= old(self)@.with_record(id, ReloadView { turn_ready: true, ..old(self)@.records[id] }));
                    lemma_record_wf(old(self)@, id, self@.records[id]);
                }
            },
            None => {
                proof {
                    assert(self@ =~= old(self)@);
                }
            },
        }
    }

    /// Sets the macro servers that an operation is about.
    pub fn set_keys(&mut self, id: u64, keys: Vec<ProcMacroSpawnKey>)
        requires
            old(self)@.wf(),
        ensures
            final(self)@.wf(),
            old(self)@.records.contains_key(id) ==> final(self)@ == old(self)@.with_record(
                id,
                ReloadView { keys: keys.deep_view(), ..old(self)@.records[id] },
            ),
            !old(self)@.records.contains_key(id) ==> final(self)@ == old(self)@,
    {
        match self.records.remove(&id) {
            Some(record) => {
                let mut next = record;
                next.keys = keys;
                self.set_record(id, next);
                proof {
                    assert(self@ =~= old(self)@.with_record(id, ReloadView { keys: keys.deep_view(), ..old(self)@.records[id] }));
                    lemma_record_wf(old(self)@, id, self@.records[id]);
                }
            },
            None => {
                proof {
                    assert(self@ =~= old(self)@);
                }
            },
        }
    }

    /// The macro servers of an operation whose turn has come and is not over.
    pub fn active_keys(&self, id: u64) -> (r: Option<Vec<ProcMacroSpawnKey>>)
        ensures
            match r {
                Some(keys) => self@.in_turn(id) && keys.deep_view() == self@.records[id].keys,
                None => !self@.in_turn(id),
            },
    {
        match self.records.get(&id) {
            Some(record) => if record.turn_ready && record.result.is_none() {
                Some(record.keys.duplicate())
            } else {
                None
            },
            None => None,
        }
    }

    pub fn generation(&self, id: u64) -> (r: u64)
        ensures
            r == (if self@.records.contains_key(id) { self@.records[id].generation } else { 0 }),
    {
        match self.records.get(&id) {
            Some(record) => record.generation,
            None => 0,
        }
    }

    pub fn turn_ready(&self, id: u64) -> (r: bool)
        ensures
            r == (self@.records.contains_key(id) && self@.records[id].turn_ready),
    {
        match self.records.get(&id) {
            Some(record) => record.turn_ready,
            None => false,
        }
    }

    pub fn pending_loads(&self, id: u64) -> (r: Vec<u64>)
        ensures
            r@ == (if self@.records.contains_key(id) { self@.records[id].pending_loads } else { Seq::empty() }),
    {
        match self.records.get(&id) {
            Some(record) => copy_ids(&record.pending_loads),
            None => Vec::new(),
        }
    }

    /// Whether a queued operation waits for a normal one.
    pub fn awaits_normal(&self, id: u64, normal: u64) -> (r: bool)
        ensures
            r == (self@.records.contains_key(id) && self@.records[id].pending_normal.contains(normal)),
    {
        match self.records.get(&id) {
            Some(record) => contains_id(&record.pending_normal_operations, normal),
            None => false,
        }
    }
}

fn queue_holds(queue: &Vec<(SharedAnalyzerBackendKey, u64)>, id: u64) -> (r: bool)
    ensures
        r == exists|i: int| 0 <= i < queue.deep_view().len() && (#[trigger] queue.deep_view()[i]).1 == id,
{
    let mut i: usize = 0;
    while i < queue.len()
        invariant
            i <= queue.len(),
            forall|j: int| 0 <= j < i ==> (#[trigger] queue.deep_view()[j]).1 != id,
        decreases queue.len() - i,
    {
        proof {
            assert(queue.deep_view()[i as int].1 == queue@[i as int].1);
        }
        if queue[i].1 == id {
            return true;
        }
        i = i + 1;
    }
    false
}

fn position_in_queue(queue: &Vec<(SharedAnalyzerBackendKey, u64)>, key: &SharedAnalyzerBackendKey, id: u64) -> (r: Option<usize>)
    ensures
        match r {
            Some(at) => at < queue.len() && queue.deep_view()[at as int] == (key@, id) && forall|j: int|
                0 <= j < at ==> #[trigger] queue.deep_view()[j] != (key@, id),
            None => !queue.deep_view().contains((key@, id)),
        },
{
    let mut i: usize = 0;
    while i < queue.len()
        invariant
            i <= queue.len(),
            forall|j: int| 0 <= j < i ==> #[trigger] queue.deep_view()[j] != (key@, id),
        decreases queue.len() - i,
    {
        proof {
            assert(queue.deep_view()[i as int] == (queue@[i as int].0@, queue@[i as int].1));
        }
        if queue[i].1 == id && same(&queue[i].0, key) {
            return Some(i);
        }
        i = i + 1;
    }
    None
}

fn position_of_id(list: &Vec<u64>, id: u64) -> (r: Option<usize>)
    ensures
        match r {
            Some(at) => at < list.len() && list@[at as int] == id && forall|j: int| 0 <= j < at ==> list@[j] != id,
            None => !list@.contains(id),
        },
{
    let mut i: usize = 0;
    while i < list.len()
        invariant
            i <= list.len(),
            forall|j: int| 0 <= j < i ==> list@[j] != id,
        decreases list.len() - i,
    {
        if list[i] == id {
            return Some(i);
        }
        i = i + 1;
    }
    None
}

/// A sequence less the first occurrence of an item.
pub open spec fn without<A>(s: Seq<A>, item: A) -> Seq<A>
    decreases s.len(),
{
    if s.len() == 0 {
        s
    } else if s[0] == item {
        s.drop_first()
    } else {
        seq![s[0]] + without(s.drop_first(), item)
    }
}

proof fn lemma_without<A>(s: Seq<A>, item: A, at: int)
    requires
        0 <= at < s.len(),
        s[at] == item,
        forall|j: int| 0 <= j < at ==> s[j] != item,
    ensures
        without(s, item) == s.remove(at),
    decreases s.len(),
{
    if at == 0 {
        assert(s.drop_first() =~= s.remove(0));
    } else {
        lemma_without(s.drop_first(), item, at - 1);
        assert(seq![s[0]] + s.drop_first().remove(at - 1) =~= s.remove(at));
    }
}

proof fn lemma_record_wf(s: OperationsView, id: u64, record: ReloadView)
    requires
        s.wf(),
        s.records.contains_key(id),
        record.result == s.records[id].result,
    ensures
        s.with_record(id, record).wf(),
{
    let t = s.with_record(id, record);
    assert forall|w: WorldKeyView| t.queue(w) == s.queue(w) && t.normal(w) == s.normal(w) by {}
    assert forall|i: u64| t.finished(i) == s.finished(i) by {}
}

/// Queueing an operation keeps the queues sound.
pub proof fn lemma_enqueue_wf(s: OperationsView, key: BackendKeyView, loads: Seq<u64>)
    requires
        s.wf(),
        s.next < u64::MAX,
    ensures
        s.enqueued(key, loads).wf(),
{
    let t = s.enqueued(key, loads);
    let world = key.shared_world;
    assert forall|w: WorldKeyView| #[trigger] t.normal(w) == s.normal(w) by {}
    assert(t.queue(world) == s.queue(world).push((key, s.next)));
    assert forall|w: WorldKeyView| w != world implies #[trigger] t.queue(w) == s.queue(w) by {}
    assert forall|i: u64| i != s.next implies #[trigger] t.finished(i) == s.finished(i) by {}
    assert(!t.finished(s.next));
    assert(s.finished(s.next));
    assert forall|w: WorldKeyView, i: int| 0 <= i < t.queue(w).len() implies (#[trigger] t.queue(w)[i]).0.shared_world == w
        && !t.finished(t.queue(w)[i].1) by {
        if i < s.queue(w).len() {
            assert(t.queue(w)[i] == s.queue(w)[i]);
        }
    }
    assert forall|w: WorldKeyView, i: int| 0 <= i < t.normal(w).len() implies !t.finished(#[trigger] t.normal(w)[i]) by {
        assert(!s.finished(s.normal(w)[i]));
    }
    assert forall|v: WorldKeyView, i: int, w: WorldKeyView, j: int|
        0 <= i < t.queue(v).len() && 0 <= j < t.queue(w).len() && (#[trigger] t.queue(v)[i]).1 == (#[trigger] t.queue(
            w,
        )[j]).1 implies v == w && i == j by {
        if i < s.queue(v).len() {
            assert(t.queue(v)[i] == s.queue(v)[i] && !s.finished(s.queue(v)[i].1));
        }
        if j < s.queue(w).len() {
            assert(t.queue(w)[j] == s.queue(w)[j] && !s.finished(s.queue(w)[j].1));
        }
    }
    assert forall|v: WorldKeyView, i: int, w: WorldKeyView, j: int|
        0 <= i < t.queue(v).len() && 0 <= j < t.normal(w).len() implies (#[trigger] t.queue(v)[i]).1 != (#[trigger] t.normal(
        w,
    )[j]) by {
        assert(!s.finished(s.normal(w)[j]));
        if i < s.queue(v).len() {
            assert(t.queue(v)[i] == s.queue(v)[i]);
        }
    }
}

proof fn lemma_begin_normal_wf(s: OperationsView, world: WorldKeyView)
    requires
        s.wf(),
        s.next < u64::MAX,
    ensures
        s.normal_begun(world).wf(),
{
    let t = s.normal_begun(world);
    assert forall|w: WorldKeyView| #[trigger] t.queue(w) == s.queue(w) by {}
    assert(t.normal(world) == s.normal(world).push(s.next));
    assert forall|w: WorldKeyView| w != world implies #[trigger] t.normal(w) == s.normal(w) by {}
    assert forall|i: u64| i != s.next implies #[trigger] t.finished(i) == s.finished(i) by {}
    assert(!t.finished(s.next));
    assert(s.finished(s.next));
    assert forall|w: WorldKeyView, i: int| 0 <= i < t.normal(w).len() implies !t.finished(#[trigger] t.normal(w)[i]) by {
        if i < s.normal(w).len() {
            assert(t.normal(w)[i] == s.normal(w)[i]);
        }
    }
    assert forall|w: WorldKeyView, i: int| 0 <= i < t.queue(w).len() implies (#[trigger] t.queue(w)[i]).0.shared_world == w
        && !t.finished(t.queue(w)[i].1) by {
        assert(!s.finished(s.queue(w)[i].1));
    }
    assert forall|v: WorldKeyView, i: int, w: WorldKeyView, j: int|
        0 <= i < t.normal(v).len() && 0 <= j < t.normal(w).len() && (#[trigger] t.normal(v)[i]) == (#[trigger] t.normal(
            w,
        )[j]) implies v == w && i == j by {
        if i < s.normal(v).len() {
            assert(t.normal(v)[i] == s.normal(v)[i] && !s.finished(s.normal(v)[i]));
        }
        if j < s.normal(w).len() {
            assert(t.normal(w)[j] == s.normal(w)[j] && !s.finished(s.normal(w)[j]));
        }
    }
    assert forall|v: WorldKeyView, i: int, w: WorldKeyView, j: int|
        0 <= i < t.queue(v).len() && 0 <= j < t.normal(w).len() implies (#[trigger] t.queue(v)[i]).1 != (#[trigger] t.normal(
        w,
    )[j]) by {
        assert(!s.finished(s.queue(v)[i].1));
        if j < s.normal(w).len() {
            assert(t.normal(w)[j] == s.normal(w)[j]);
        }
    }
}

proof fn lemma_unqueue_wf(s: OperationsView, world: WorldKeyView, at: int, result: ResultView)
    requires
        s.wf(),
        0 <= at < s.queue(world).len(),
    ensures
        s.closed_record(s.queue(world)[at].1, result).with_queue(world, s.queue(world).remove(at)).wf(),
{
    let id = s.queue(world)[at].1;
    let t = s.closed_record(id, result).with_queue(world, s.queue(world).remove(at));
    assert(!s.finished(s.queue(world)[at].1));
    assert forall|w: WorldKeyView| #[trigger] t.normal(w) == s.normal(w) by {}
    assert(t.queue(world) =~= s.queue(world).remove(at));
    assert forall|w: WorldKeyView| w != world implies #[trigger] t.queue(w) == s.queue(w) by {}
    assert forall|i: u64| i != id implies #[trigger] t.finished(i) == s.finished(i) by {}
    let old_at = |w: WorldKeyView, i: int| if w == world && i >= at { i + 1 } else { i };
    assert forall|w: WorldKeyView, i: int| 0 <= i < t.queue(w).len() implies (#[trigger] t.queue(w)[i]).0.shared_world == w
        && !t.finished(t.queue(w)[i].1) by {
        let j = old_at(w, i);
        assert(t.queue(w)[i] == s.queue(w)[j]);
        assert(s.queue(w)[j].1 != s.queue(world)[at].1);
    }
    assert forall|w: WorldKeyView, i: int| 0 <= i < t.normal(w).len() implies !t.finished(#[trigger] t.normal(w)[i]) by {
        assert(!s.finished(s.normal(w)[i]));
        assert(s.queue(world)[at].1 != s.normal(w)[i]);
    }
    assert forall|v: WorldKeyView, i: int, w: WorldKeyView, j: int|
        0 <= i < t.queue(v).len() && 0 <= j < t.queue(w).len() && (#[trigger] t.queue(v)[i]).1 == (#[trigger] t.queue(
            w,
        )[j]).1 implies v == w && i == j by {
        assert(t.queue(v)[i] == s.queue(v)[old_at(v, i)]);
        assert(t.queue(w)[j] == s.queue(w)[old_at(w, j)]);
    }
    assert forall|v: WorldKeyView, i: int, w: WorldKeyView, j: int|
        0 <= i < t.queue(v).len() && 0 <= j < t.normal(w).len() implies (#[trigger] t.queue(v)[i]).1 != (#[trigger] t.normal(
        w,
    )[j]) by {
        assert(t.queue(v)[i] == s.queue(v)[old_at(v, i)]);
        assert(t.normal(w)[j] == s.normal(w)[j]);
    }
}

proof fn lemma_unnormal_wf(s: OperationsView, world: WorldKeyView, at: int, result: ResultView)
    requires
        s.wf(),
        0 <= at < s.normal(world).len(),
    ensures
        s.closed_record(s.normal(world)[at], result).with_normal(world, s.normal(world).remove(at)).wf(),
{
    let id = s.normal(world)[at];
    let t = s.closed_record(id, result).with_normal(world, s.normal(world).remove(at));
    assert(!s.finished(s.normal(world)[at]));
    assert forall|w: WorldKeyView| #[trigger] t.queue(w) == s.queue(w) by {}
    assert(t.normal(world) =~= s.normal(world).remove(at));
    assert forall|w: WorldKeyView| w != world implies #[trigger] t.normal(w) == s.normal(w) by {}
    assert forall|i: u64| i != id implies #[trigger] t.finished(i) == s.finished(i) by {}
    let old_at = |w: WorldKeyView, i: int| if w == world && i >= at { i + 1 } else { i };
    assert forall|w: WorldKeyView, i: int| 0 <= i < t.normal(w).len() implies !t.finished(#[trigger] t.normal(w)[i]) by {
        let j = old_at(w, i);
        assert(t.normal(w)[i] == s.normal(w)[j]);
        assert(s.normal(w)[j] != s.normal(world)[at]);
    }
    assert forall|w: WorldKeyView, i: int| 0 <= i < t.queue(w).len() implies (#[trigger] t.queue(w)[i]).0.shared_world == w
        && !t.finished(t.queue(w)[i].1) by {
        assert(!s.finished(s.queue(w)[i].1));
        assert(s.queue(w)[i].1 != s.normal(world)[at]);
    }
    assert forall|v: WorldKeyView, i: int, w: WorldKeyView, j: int|
        0 <= i < t.normal(v).len() && 0 <= j < t.normal(w).len() && (#[trigger] t.normal(v)[i]) == (#[trigger] t.normal(
            w,
        )[j]) implies v == w && i == j by {
        assert(t.normal(v)[i] == s.normal(v)[old_at(v, i)]);
        assert(t.normal(w)[j] == s.normal(w)[old_at(w, j)]);
    }
    assert forall|v: WorldKeyView, i: int, w: WorldKeyView, j: int|
        0 <= i < t.queue(v).len() && 0 <= j < t.normal(w).len() implies (#[trigger] t.queue(v)[i]).1 != (#[trigger] t.normal(
        w,
    )[j]) by {
        assert(t.normal(w)[j] == s.normal(w)[old_at(w, j)]);
        assert(t.queue(v)[i] == s.queue(v)[i]);
    }
}

/// While an explicit operation has its turn, no normal operation of its world may run: those it
/// waited for are over, and those that came later wait for it.
pub proof fn law_explicit_turn_excludes_normal(s: OperationsView, world: WorldKeyView, id: u64, i: int)
    requires
        s.wf(),
        s.queue_wait(world, id) == OperationWait::Ready,
        0 <= i < s.normal(world).len(),
    ensures
        !s.normal_ready(world, s.normal(world)[i]),
{
    let normal = s.normal(world)[i];
    assert(!s.finished(s.normal(world)[i]));
    if s.records[id].pending_normal.contains(normal) {
        lemma_first_open(s, s.records[id].pending_normal, normal);
    }
}

proof fn lemma_first_open(s: OperationsView, ids: Seq<u64>, id: u64)
    requires
        ids.contains(id),
        !s.finished(id),
    ensures
        s.first_open(ids) is Some,
    decreases ids.len(),
{
    let i = ids.index_of(id);
    if i > 0 {
        assert(ids.drop_first()[i - 1] == id);
        lemma_first_open(s, ids.drop_first(), id);
    }
}

/// At most one explicit operation of a world has its turn.
pub proof fn law_one_explicit_turn(s: OperationsView, world: WorldKeyView, a: u64, b: u64)
    requires
        s.queue_wait(world, a) == OperationWait::Ready,
        s.queue_wait(world, b) == OperationWait::Ready,
    ensures
        a == b,
{
}

/// Operations of a world take their turns in the order in which they were queued: a new one goes
/// to the end, and the one at the front stays there until it ends.
pub proof fn law_turns_are_first_come(s: OperationsView, key: BackendKeyView, loads: Seq<u64>)
    requires
        s.wf(),
        s.next < u64::MAX,
    ensures
        s.enqueued(key, loads).queue(key.shared_world).last() == (key, s.next),
        s.enqueued(key, loads).queue(key.shared_world).drop_last() == s.queue(key.shared_world),
        s.active(key.shared_world) is Some ==> s.enqueued(key, loads).active(key.shared_world) == s.active(
            key.shared_world,
        ),
        s.active(key.shared_world) is None ==> s.enqueued(key, loads).active(key.shared_world) == Some(s.next),
{
    let t = s.enqueued(key, loads);
    assert(t.queue(key.shared_world).drop_last() =~= s.queue(key.shared_world));
}

/// Operations of one world do not touch the queue of another.
pub proof fn law_worlds_queue_apart(s: OperationsView, key: BackendKeyView, loads: Seq<u64>, other: WorldKeyView)
    requires
        other != key.shared_world,
    ensures
        s.enqueued(key, loads).queue(other) == s.queue(other),
        s.normal_begun(key.shared_world).normal(other) == s.normal(other),
{
}

/// A token of an earlier generation does not carry an operation on.
pub proof fn law_stale_token_is_refused(s: OperationsView, id: u64, generation: u64)
    requires
        s.records.contains_key(id),
        s.records[id].generation == generation,
        generation < u64::MAX,
    ensures
        s.with_record(id, ReloadView { generation: (generation + 1) as u64, ..s.records[id] }).records[id].generation
            != generation,
{
}

} // verus!
