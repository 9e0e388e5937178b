//! The operations that one session has under way.
use crate::keys::{BackendKeyView, SharedAnalyzerBackendKey};
use crate::operations::{
    OperationResult, OperationsView, ResultView, SharedAnalyzerOperationToken, without,
    lemma_enqueue_wf,
};
use crate::registry::{lemma_wf_operations, loads_in, RegistryView, SharedAnalyzerRegistry};
use crate::spawn_key::ProcMacroSpawnKey;
use crate::tokens::{same, Tokens};
use vstd::prelude::*;

verus! {

/// At most one reload, one reload behind it, one rebuild and one normal operation.
#[derive(Clone, Copy, Debug, PartialEq, Eq, Structural)]
pub struct OperationSlots {
    pub reload: Option<u64>,
    pub next_reload: Option<u64>,
    pub rebuild: Option<u64>,
    pub normal: Option<u64>,
}

/// Whether work done for an operation may be committed.
#[derive(Clone, Copy, Debug, PartialEq, Eq, Structural)]
pub enum CommitGate {
    Commit,
    /// The work is out of date, or it is another operation's turn.
    Skip,
    /// The operation at the front is the session's, but is queued under another key.
    Unregistered,
}

#[derive(Clone, Copy, Debug, PartialEq, Eq, Structural)]
pub enum ExplicitSlot {
    Reload,
    Rebuild,
}

pub open spec fn turn_came(ops: OperationsView, slot: Option<u64>) -> bool {
    slot matches Some(id) && ops.records.contains_key(id) && ops.records[id].turn_ready
}

pub open spec fn generation_of(ops: OperationsView, slot: Option<u64>) -> u64 {
    match slot {
        Some(id) => if ops.records.contains_key(id) {
            ops.records[id].generation
        } else {
            0
        },
        None => 0,
    }
}

/// The registry once a further reload was queued and taken back at once.
pub open spec fn coalesced(registry: RegistryView, key: BackendKeyView) -> RegistryView {
    cancelled(
        registry.with_operations(registry.operations.enqueued(key, loads_in(registry, key.shared_world))),
        key,
        Some(registry.operations.next),
        "shared reload request was coalesced"@,
    )
}

/// A session's slots and the registry once it asked for a reload: the first that is open becomes the
/// session's reload, the second waits, and any further one is taken back.
pub open spec fn reload_begun(slots: OperationSlots, registry: RegistryView, key: BackendKeyView) -> (OperationSlots, RegistryView) {
    let id = Some(registry.operations.next);
    if slots.reload is Some && slots.next_reload is Some {
        (slots, coalesced(registry, key))
    } else {
        (
            if slots.reload is None {
                OperationSlots { reload: id, ..slots }
            } else {
                OperationSlots { next_reload: id, ..slots }
            },
            registry.with_operations(registry.operations.enqueued(key, loads_in(registry, key.shared_world))),
        )
    }
}

impl OperationSlots {
    /// The operation that the session is working on: the normal one, else a reload or a rebuild
    /// whose turn has come.
    pub open spec fn current(self, ops: OperationsView) -> Option<u64> {
        if self.normal is Some {
            self.normal
        } else if turn_came(ops, self.reload) {
            self.reload
        } else if turn_came(ops, self.rebuild) {
            self.rebuild
        } else {
            None
        }
    }

    pub open spec fn token(self, ops: OperationsView, session_id: u64) -> SharedAnalyzerOperationToken {
        SharedAnalyzerOperationToken {
            session_id,
            operation: self.current(ops),
            generation: generation_of(ops, self.current(ops)),
        }
    }

    /// The token stands for what the session is working on, no further and no less far.
    pub open spec fn matches(self, ops: OperationsView, session_id: u64, token: SharedAnalyzerOperationToken) -> bool {
        match (token.operation, self.current(ops)) {
            (Some(expected), Some(actual)) => expected == actual && token.generation == generation_of(ops, Some(actual))
                && !ops.finished(expected),
            (None, None) => token.session_id == session_id,
            _ => false,
        }
    }

    /// The operation at the front lets this session go on: it is one of the session's own, or it
    /// waits for the session's normal operation. Where nothing is queued a session without a
    /// reload or rebuild goes on.
    pub open spec fn ready(self, ops: OperationsView, key: BackendKeyView) -> bool {
        match ops.active(key.shared_world) {
            None => self.reload is None && self.rebuild is None,
            Some(active) => {
                ||| self.reload == Some(active)
                ||| self.rebuild == Some(active)
                ||| (self.normal matches Some(own) && ops.records.contains_key(active) && ops.records[active].pending_normal.contains(
                    own,
                ))
            },
        }
    }

    pub open spec fn gate(
        self,
        ops: OperationsView,
        key: BackendKeyView,
        session_id: u64,
        expected: SharedAnalyzerOperationToken,
    ) -> CommitGate {
        let by_token = if self.matches(ops, session_id, expected) {
            CommitGate::Commit
        } else {
            CommitGate::Skip
        };
        if self.normal is Some || (self.reload is None && self.rebuild is None) {
            by_token
        } else {
            match ops.active(key.shared_world) {
                None => CommitGate::Skip,
                Some(active) => if self.reload != Some(active) && self.rebuild != Some(active) {
                    CommitGate::Skip
                } else if !ops.at_front(key, active) {
                    CommitGate::Unregistered
                } else {
                    by_token
                },
            }
        }
    }

    pub fn empty() -> (r: Self)
        ensures
            r == (OperationSlots { reload: None, next_reload: None, rebuild: None, normal: None }),
    {
        OperationSlots { reload: None, next_reload: None, rebuild: None, normal: None }
    }

    /// The slots of a session that comes with a reload of its own.
    pub fn with_reload(reload: Option<u64>) -> (r: Self)
        ensures
            r == (OperationSlots { reload, next_reload: None, rebuild: None, normal: None }),
    {
        OperationSlots { reload, next_reload: None, rebuild: None, normal: None }
    }

    /// Queues a reload. While one is under way a second may wait behind it; a third is folded into
    /// the second.
    pub fn begin_reload(
        &mut self,
        registry: &mut SharedAnalyzerRegistry,
        session_id: u64,
        key: &SharedAnalyzerBackendKey,
    ) -> (r: Option<SharedAnalyzerOperationToken>)
        requires
            old(registry)@.wf(),
            old(registry)@.operations.next < u64::MAX,
        ensures
            final(registry)@.wf(),
            (*final(self), final(registry)@) == reload_begun(*old(self), old(registry)@, key@),
            r is None <==> old(self).reload is Some && old(self).next_reload is Some,
            r matches Some(token) ==> {
                &&& token == (SharedAnalyzerOperationToken {
                    session_id,
                    operation: Some(old(registry)@.operations.next),
                    generation: 0,
                })
                &&& *final(self) == (if old(self).reload is None {
                    OperationSlots { reload: token.operation, ..*old(self) }
                } else {
                    OperationSlots { next_reload: token.operation, ..*old(self) }
                })
                &&& final(registry)@ == old(registry)@.with_operations(
                    old(registry)@.operations.enqueued(key@, loads_in(old(registry)@, key@.shared_world)),
                )
            },
            r is None ==> {
                &&& *final(self) == *old(self)
                &&& final(registry)@ == coalesced(old(registry)@, key@)
                &&& final(registry)@.operations.queue(key@.shared_world) == old(registry)@.operations.queue(key@.shared_world)
                &&& final(registry)@.operations.finished(old(registry)@.operations.next)
            },
    {
        let id = registry.enqueue_operation(key.duplicate());
        let ghost queued = registry@;
        let ghost loads = loads_in(old(registry)@, key@.shared_world);
        let token = SharedAnalyzerOperationToken {
            session_id,
            operation: Some(id),
            generation: registry.operation_generation(id),
        };
        if self.reload.is_none() {
            self.reload = Some(id);
            return Some(token);
        }
        if self.next_reload.is_some() {
            let before = registry.cancel_operation(key, id, String::from_str("shared reload request was coalesced"));
            proof {
                lemma_wf_operations(old(registry)@);
                let world = key@.shared_world;
                let was = old(registry)@.operations.queue(world);
                let now = queued.operations.queue(world);
                assert(now == was.push((key@, id)));
                assert(now[was.len() as int] == (key@, id));
                assert(now.contains((key@, id)));
                assert(!was.contains((key@, id))) by {
                    if was.contains((key@, id)) {
                        let i = was.index_of((key@, id));
                        assert(!old(registry)@.operations.finished(was[i].1));
                    }
                }
                lemma_without_last(was, (key@, id));
                assert(registry@.operations.queue(world) =~= was);
            }
            return None;
        }
        self.next_reload = Some(id);
        Some(token)
    }

    /// Makes the reload of a token the current one, if its turn has come: it is the current one
    /// already, or there is none and it is next.
    pub fn activate_reload(&mut self, registry: &SharedAnalyzerRegistry, token: SharedAnalyzerOperationToken) -> (r: bool)
        ensures
            ({
                let ops = registry@.operations;
                let is_current = token.operation is Some && old(self).reload == token.operation && turn_came(ops, token.operation);
                let is_next = token.operation is Some && old(self).reload is None && old(self).next_reload == token.operation
                    && turn_came(ops, token.operation);
                &&& r == (is_current || is_next)
                &&& *final(self) == (if is_next {
                    OperationSlots { reload: token.operation, next_reload: None, ..*old(self) }
                } else {
                    *old(self)
                })
            }),
    {
        let expected = match token.operation {
            Some(expected) => expected,
            None => {
                return false;
            },
        };
        match self.reload {
            Some(current) => current == expected && registry.operation_turn_ready(current),
            None => match self.next_reload {
                Some(next) => {
                    if next == expected && registry.operation_turn_ready(next) {
                        self.reload = Some(next);
                        self.next_reload = None;
                        true
                    } else {
                        false
                    }
                },
                None => false,
            },
        }
    }

    pub fn reload_registered(&self) -> (r: bool)
        ensures
            r == (self.reload is Some || self.next_reload is Some),
    {
        self.reload.is_some() || self.next_reload.is_some()
    }

    pub fn rebuild_registered(&self) -> (r: bool)
        ensures
            r == (self.rebuild is Some),
    {
        self.rebuild.is_some()
    }

    /// Queues a rebuild, unless there is one.
    pub fn begin_rebuild(&mut self, registry: &mut SharedAnalyzerRegistry, key: &SharedAnalyzerBackendKey) -> (r: bool)
        requires
            old(registry)@.wf(),
            old(registry)@.operations.next < u64::MAX,
        ensures
            final(registry)@.wf(),
            r == (old(self).rebuild is None),
            r ==> {
                &&& *final(self) == (OperationSlots { rebuild: Some(old(registry)@.operations.next), ..*old(self) })
                &&& final(registry)@ == old(registry)@.with_operations(
                    old(registry)@.operations.enqueued(key@, loads_in(old(registry)@, key@.shared_world)),
                )
            },
            !r ==> *final(self) == *old(self) && final(registry)@ == old(registry)@,
    {
        if self.rebuild.is_some() {
            return false;
        }
        let own = key.duplicate();
        assert(own@ == key@);
        let id = registry.enqueue_operation(own);
        self.rebuild = Some(id);
        true
    }

    /// Registers a normal operation, unless there is one, and tells whether it may run.
    pub fn begin_normal_operation(&mut self, registry: &mut SharedAnalyzerRegistry, key: &SharedAnalyzerBackendKey) -> (r: bool)
        requires
            old(registry)@.wf(),
            old(registry)@.operations.next < u64::MAX,
        ensures
            final(registry)@.wf(),
            old(self).normal is Some ==> r && *final(self) == *old(self) && final(registry)@ == old(registry)@,
            old(self).normal is None ==> {
                let id = old(registry)@.operations.next;
                &&& *final(self) == (OperationSlots { normal: Some(id), ..*old(self) })
                &&& final(registry)@ == old(registry)@.with_operations(
                    old(registry)@.operations.normal_begun(key@.shared_world),
                )
                &&& r == final(registry)@.operations.normal_ready(key@.shared_world, id)
            },
    {
        if self.normal.is_some() {
            return true;
        }
        let id = registry.begin_normal_operation(key);
        let ready = registry.normal_operation_ready(&key.shared_world, id);
        self.normal = Some(id);
        ready
    }

    /// Ends the normal operation. It stays in its slot only where it is neither registered nor
    /// over.
    pub fn finish_normal_operation(
        &mut self,
        registry: &mut SharedAnalyzerRegistry,
        key: &SharedAnalyzerBackendKey,
        result: OperationResult,
    ) -> (r: bool)
        requires
            old(registry)@.wf(),
        ensures
            final(registry)@.wf(),
            ({
                let ops = old(registry)@.operations;
                match old(self).normal {
                    None => !r && *final(self) == *old(self) && final(registry)@ == old(registry)@,
                    Some(id) => {
                        &&& r == ops.normal(key@.shared_world).contains(id)
                        &&& r ==> final(registry)@ == old(registry)@.with_operations(
                            ops.closed_record(id, crate::operations::result_view(result)).with_normal(
                                key@.shared_world,
                                without(ops.normal(key@.shared_world), id),
                            ),
                        )
                        &&& !r ==> final(registry)@ == old(registry)@
                        &&& *final(self) == (if r || ops.finished(id) {
                            OperationSlots { normal: None, ..*old(self) }
                        } else {
                            *old(self)
                        })
                    },
                }
            }),
    {
        match self.normal {
            None => false,
            Some(id) => {
                let finished = registry.finish_normal_operation(key, id, result);
                if finished || registry.operation_finished(id) {
                    self.normal = None;
                }
                finished
            },
        }
    }

    pub open spec fn explicit(self, which: ExplicitSlot) -> Option<u64> {
        match which {
            ExplicitSlot::Reload => self.reload,
            ExplicitSlot::Rebuild => self.rebuild,
        }
    }

    pub open spec fn cleared(self, which: ExplicitSlot) -> OperationSlots {
        match which {
            ExplicitSlot::Reload => OperationSlots { reload: None, ..self },
            ExplicitSlot::Rebuild => OperationSlots { rebuild: None, ..self },
        }
    }

    /// Ends the reload or the rebuild, if it is at the front. It stays in its slot only where it is
    /// neither at the front nor over.
    pub fn finish_explicit_operation(
        &mut self,
        registry: &mut SharedAnalyzerRegistry,
        key: &SharedAnalyzerBackendKey,
        which: ExplicitSlot,
        result: OperationResult,
    ) -> (r: bool)
        requires
            old(registry)@.wf(),
        ensures
            final(registry)@.wf(),
            ({
                let ops = old(registry)@.operations;
                match old(self).explicit(which) {
                    None => !r && *final(self) == *old(self) && final(registry)@ == old(registry)@,
                    Some(id) => {
                        &&& r == ops.at_front(key@, id)
                        &&& r ==> final(registry)@ == old(registry)@.with_operations(
                            ops.closed_record(id, crate::operations::result_view(result)).with_queue(
                                key@.shared_world,
                                ops.queue(key@.shared_world).drop_first(),
                            ),
                        )
                        &&& !r ==> final(registry)@ == old(registry)@
                        &&& *final(self) == (if r || ops.finished(id) {
                            old(self).cleared(which)
                        } else {
                            *old(self)
                        })
                    },
                }
            }),
    {
        let slot = match which {
            ExplicitSlot::Reload => self.reload,
            ExplicitSlot::Rebuild => self.rebuild,
        };
        match slot {
            None => false,
            Some(id) => {
                let finished = registry.finish_operation(key, id, result);
                if finished || registry.operation_finished(id) {
                    match which {
                        ExplicitSlot::Reload => {
                            self.reload = None;
                        },
                        ExplicitSlot::Rebuild => {
                            self.rebuild = None;
                        },
                    }
                }
                finished
            },
        }
    }

    /// The macro servers of the reload, or else of the rebuild, that has its turn.
    pub fn operation_keys(&self, registry: &SharedAnalyzerRegistry) -> (r: Option<Vec<ProcMacroSpawnKey>>)
        ensures
            ({
                let ops = registry@.operations;
                let reload = self.reload matches Some(id) && ops.in_turn(id);
                let rebuild = self.rebuild matches Some(id) && ops.in_turn(id);
                &&& r is Some <==> reload || rebuild
                &&& r matches Some(keys) ==> keys.deep_view() == (if reload {
                    ops.records[self.reload->0].keys
                } else {
                    ops.records[self.rebuild->0].keys
                })
            }),
    {
        let reload = self.reload_keys(registry);
        if reload.is_some() {
            return reload;
        }
        match self.rebuild {
            Some(id) => registry.operation_keys(id),
            None => None,
        }
    }

    pub fn reload_keys(&self, registry: &SharedAnalyzerRegistry) -> (r: Option<Vec<ProcMacroSpawnKey>>)
        ensures
            r is Some <==> (self.reload matches Some(id) && registry@.operations.in_turn(id)),
            r matches Some(keys) ==> keys.deep_view() == registry@.operations.records[self.reload->0].keys,
    {
        match self.reload {
            Some(id) => registry.operation_keys(id),
            None => None,
        }
    }

    /// Sets the macro servers of the reload or the rebuild, if there is one.
    pub fn set_operation_keys(
        &self,
        registry: &mut SharedAnalyzerRegistry,
        rebuild: bool,
        keys: Vec<ProcMacroSpawnKey>,
    )
        requires
            old(registry)@.wf(),
        ensures
            final(registry)@.wf(),
            ({
                let ops = old(registry)@.operations;
                match (if rebuild { self.rebuild } else { self.reload }) {
                    Some(id) => if ops.records.contains_key(id) {
                        final(registry)@ == old(registry)@.with_operations(
                            ops.with_record(id, (crate::operations::ReloadView { keys: keys.deep_view(), ..ops.records[id] })),
                        )
                    } else {
                        final(registry)@ == old(registry)@
                    },
                    None => final(registry)@ == old(registry)@,
                }
            }),
    {
        let slot = if rebuild {
            self.rebuild
        } else {
            self.reload
        };
        match slot {
            Some(id) => {
                registry.set_keys(id, keys);
            },
            None => {},
        }
    }

    /// A token for the reload whose turn has come and is not over.
    pub fn reload_operation_token(&self, registry: &SharedAnalyzerRegistry, session_id: u64) -> (r: Option<SharedAnalyzerOperationToken>)
        ensures
            ({
                let ops = registry@.operations;
                r == (if turn_came(ops, self.reload) && !ops.finished(self.reload->0) {
                    Some(
                        SharedAnalyzerOperationToken {
                            session_id,
                            operation: self.reload,
                            generation: generation_of(ops, self.reload),
                        },
                    )
                } else {
                    None
                })
            }),
    {
        match self.reload {
            Some(id) => if registry.operation_turn_ready(id) && !registry.operation_finished(id) {
                Some(
                    SharedAnalyzerOperationToken {
                        session_id,
                        operation: Some(id),
                        generation: registry.operation_generation(id),
                    },
                )
            } else {
                None
            },
            None => None,
        }
    }

    /// A token for the rebuild that is not over.
    pub fn rebuild_operation_token(&self, registry: &SharedAnalyzerRegistry, session_id: u64) -> (r: Option<SharedAnalyzerOperationToken>)
        ensures
            ({
                let ops = registry@.operations;
                r == (if self.rebuild is Some && !ops.finished(self.rebuild->0) {
                    Some(
                        SharedAnalyzerOperationToken {
                            session_id,
                            operation: self.rebuild,
                            generation: generation_of(ops, self.rebuild),
                        },
                    )
                } else {
                    None
                })
            }),
    {
        match self.rebuild {
            Some(id) => if !registry.operation_finished(id) {
                Some(
                    SharedAnalyzerOperationToken {
                        session_id,
                        operation: Some(id),
                        generation: registry.operation_generation(id),
                    },
                )
            } else {
                None
            },
            None => None,
        }
    }

    /// Whether the reload's turn has come and is not over.
    pub fn reload_active(&self, registry: &SharedAnalyzerRegistry) -> (r: bool)
        ensures
            r == (turn_came(registry@.operations, self.reload) && !registry@.operations.finished(self.reload->0)),
    {
        match self.reload {
            Some(id) => registry.operation_turn_ready(id) && !registry.operation_finished(id),
            None => false,
        }
    }

    fn turn_of(slot: Option<u64>, registry: &SharedAnalyzerRegistry) -> (r: bool)
        ensures
            r == turn_came(registry@.operations, slot),
    {
        match slot {
            Some(id) => registry.operation_turn_ready(id),
            None => false,
        }
    }

    /// A token for what the session is working on.
    pub fn operation_token(&self, registry: &SharedAnalyzerRegistry, session_id: u64) -> (r: SharedAnalyzerOperationToken)
        ensures
            r == self.token(registry@.operations, session_id),
    {
        let operation = if self.normal.is_some() {
            self.normal
        } else if Self::turn_of(self.reload, registry) {
            self.reload
        } else if Self::turn_of(self.rebuild, registry) {
            self.rebuild
        } else {
            None
        };
        let generation = match operation {
            Some(id) => registry.operation_generation(id),
            None => 0,
        };
        SharedAnalyzerOperationToken { session_id, operation, generation }
    }

    /// Whether a token stands for what the session is working on.
    pub fn operation_token_matches(
        &self,
        registry: &SharedAnalyzerRegistry,
        session_id: u64,
        token: SharedAnalyzerOperationToken,
    ) -> (r: bool)
        ensures
            r == self.matches(registry@.operations, session_id, token),
    {
        let current = self.operation_token(registry, session_id);
        match (token.operation, current.operation) {
            (Some(expected), Some(actual)) => expected == actual && token.generation == current.generation
                && !registry.operation_finished(expected),
            (None, None) => token.session_id == current.session_id,
            _ => false,
        }
    }

    /// Whether a token stands for the session's normal operation.
    pub fn normal_operation_matches(&self, registry: &SharedAnalyzerRegistry, token: SharedAnalyzerOperationToken) -> (r: bool)
        ensures
            r == (token.operation is Some && self.normal == token.operation && token.generation == generation_of(
                registry@.operations,
                self.normal,
            ) && !registry@.operations.finished(token.operation->0)),
    {
        match (token.operation, self.normal) {
            (Some(expected), Some(current)) => expected == current && token.generation == registry.operation_generation(current)
                && !registry.operation_finished(expected),
            _ => false,
        }
    }

    /// Whether the world's queue lets the session go on.
    pub fn operation_ready(&self, registry: &SharedAnalyzerRegistry, key: &SharedAnalyzerBackendKey) -> (r: bool)
        ensures
            r == self.ready(registry@.operations, key@),
    {
        match registry.active_operation(key) {
            None => self.reload.is_none() && self.rebuild.is_none(),
            Some(active) => {
                let reload = match self.reload {
                    Some(own) => own == active,
                    None => false,
                };
                let rebuild = match self.rebuild {
                    Some(own) => own == active,
                    None => false,
                };
                let normal = match self.normal {
                    Some(own) => registry.operation_awaits(active, own),
                    None => false,
                };
                reload || rebuild || normal
            },
        }
    }

    /// Whether work done under a token may be committed.
    pub fn commit_operation(
        &self,
        registry: &SharedAnalyzerRegistry,
        key: &SharedAnalyzerBackendKey,
        session_id: u64,
        expected: SharedAnalyzerOperationToken,
    ) -> (r: CommitGate)
        ensures
            r == self.gate(registry@.operations, key@, session_id, expected),
    {
        if self.normal.is_none() && (self.reload.is_some() || self.rebuild.is_some()) {
            let active = match registry.active_operation(key) {
                Some(active) => active,
                None => {
                    return CommitGate::Skip;
                },
            };
            let reload = match self.reload {
                Some(own) => own == active,
                None => false,
            };
            let rebuild = match self.rebuild {
                Some(own) => own == active,
                None => false,
            };
            if !reload && !rebuild {
                return CommitGate::Skip;
            }
            if !registry.begin_operation_phase(key, active) {
                return CommitGate::Unregistered;
            }
        }
        if self.operation_token_matches(registry, session_id, expected) {
            CommitGate::Commit
        } else {
            CommitGate::Skip
        }
    }

    fn cancel_slot(registry: &mut SharedAnalyzerRegistry, key: &SharedAnalyzerBackendKey, slot: Option<u64>, reason: &String)
        requires
            old(registry)@.wf(),
        ensures
            final(registry)@.wf(),
            final(registry)@ == cancelled(old(registry)@, key@, slot, reason@),
    {
        match slot {
            Some(id) => {
                if !registry.operation_finished(id) {
                    registry.cancel_operation(key, id, reason.clone());
                }
            },
            None => {},
        }
    }

    /// Gives up everything that the session has under way.
    pub fn cancel_operations(&mut self, registry: &mut SharedAnalyzerRegistry, key: &SharedAnalyzerBackendKey, reason: &String)
        requires
            old(registry)@.wf(),
        ensures
            final(registry)@.wf(),
            *final(self) == (OperationSlots { reload: None, next_reload: None, rebuild: None, normal: None }),
            ({
                let s = cancelled(old(registry)@, key@, old(self).reload, reason@);
                let s = cancelled(s, key@, old(self).next_reload, reason@);
                let s = cancelled(s, key@, old(self).rebuild, reason@);
                final(registry)@ == normal_failed(s, key@, old(self).normal, reason@)
            }),
    {
        Self::cancel_slot(registry, key, self.reload, reason);
        Self::cancel_slot(registry, key, self.next_reload, reason);
        Self::cancel_slot(registry, key, self.rebuild, reason);
        match self.normal {
            Some(id) => {
                if !registry.operation_finished(id) {
                    registry.finish_normal_operation(key, id, Err(reason.clone()));
                }
            },
            None => {},
        }
        self.reload = None;
        self.next_reload = None;
        self.rebuild = None;
        self.normal = None;
    }

    /// Hands the operations that are not over to another session's slots, which are free.
    pub fn transfer_operations(&mut self, target: &mut OperationSlots, registry: &SharedAnalyzerRegistry)
        requires
            open_slot(registry@.operations, old(self).reload) ==> old(target).reload is None,
            open_slot(registry@.operations, old(self).next_reload) ==> old(target).next_reload is None,
            open_slot(registry@.operations, old(self).rebuild) ==> old(target).rebuild is None,
            open_slot(registry@.operations, old(self).normal) ==> old(target).normal is None,
        ensures
            *final(self) == (OperationSlots { reload: None, next_reload: None, rebuild: None, normal: None }),
            ({
                let ops = registry@.operations;
                *final(target) == (OperationSlots {
                    reload: handed(ops, old(self).reload, old(target).reload),
                    next_reload: handed(ops, old(self).next_reload, old(target).next_reload),
                    rebuild: handed(ops, old(self).rebuild, old(target).rebuild),
                    normal: handed(ops, old(self).normal, old(target).normal),
                })
            }),
    {
        target.reload = Self::hand(registry, self.reload, target.reload);
        target.next_reload = Self::hand(registry, self.next_reload, target.next_reload);
        target.rebuild = Self::hand(registry, self.rebuild, target.rebuild);
        target.normal = Self::hand(registry, self.normal, target.normal);
        self.reload = None;
        self.next_reload = None;
        self.rebuild = None;
        self.normal = None;
    }

    fn hand(registry: &SharedAnalyzerRegistry, source: Option<u64>, target: Option<u64>) -> (r: Option<u64>)
        ensures
            r == handed(registry@.operations, source, target),
    {
        match source {
            Some(id) => if registry.operation_finished(id) {
                target
            } else {
                source
            },
            None => target,
        }
    }
}

pub open spec fn open_slot(ops: OperationsView, slot: Option<u64>) -> bool {
    slot matches Some(id) && !ops.finished(id)
}

pub open spec fn handed(ops: OperationsView, source: Option<u64>, target: Option<u64>) -> Option<u64> {
    if open_slot(ops, source) {
        source
    } else {
        target
    }
}

/// The registry once a slot's explicit operation has been given up.
pub open spec fn cancelled(s: RegistryView, key: BackendKeyView, slot: Option<u64>, reason: Seq<char>) -> RegistryView {
    if open_slot(s.operations, slot) && s.operations.queue(key.shared_world).contains((key, slot->0)) {
        s.with_operations(
            s.operations.closed_record(slot->0, ResultView::Failed(reason)).with_queue(
                key.shared_world,
                without(s.operations.queue(key.shared_world), (key, slot->0)),
            ),
        )
    } else {
        s
    }
}

/// The registry once a slot's normal operation has been given up.
pub open spec fn normal_failed(s: RegistryView, key: BackendKeyView, slot: Option<u64>, reason: Seq<char>) -> RegistryView {
    if open_slot(s.operations, slot) && s.operations.normal(key.shared_world).contains(slot->0) {
        s.with_operations(
            s.operations.closed_record(slot->0, ResultView::Failed(reason)).with_normal(
                key.shared_world,
                without(s.operations.normal(key.shared_world), slot->0),
            ),
        )
    } else {
        s
    }
}

proof fn lemma_without_last<A>(s: Seq<A>, item: A)
    requires
        !s.contains(item),
    ensures
        without(s.push(item), item) == s,
    decreases s.len(),
{
    if s.len() == 0 {
        assert(s.push(item).drop_first() =~= s);
    } else {
        assert(s.contains(s[0]));
        let rest = s.drop_first();
        assert(!rest.contains(item)) by {
            if rest.contains(item) {
                let i = rest.index_of(item);
                assert(s[i + 1] == item);
            }
        }
        lemma_without_last(rest, item);
        assert(s.push(item).drop_first() =~= rest.push(item));
        assert(seq![s[0]] + rest =~= s);
    }
}

/// Whether two sessions have their operations under the same key.
pub fn operation_scope_matches(a: &SharedAnalyzerBackendKey, b: &SharedAnalyzerBackendKey) -> (r: bool)
    ensures
        r == (a@ == b@),
{
    same(a, b)
}

/// A token matches only while the session works on the very operation, in the very generation, for
/// which the token was given.
pub proof fn law_token_is_exact(slots: OperationSlots, ops: OperationsView, session_id: u64, a: SharedAnalyzerOperationToken, b: SharedAnalyzerOperationToken)
    requires
        slots.matches(ops, session_id, a),
        slots.matches(ops, session_id, b),
    ensures
        a.operation == b.operation,
        a.operation is Some ==> a.generation == b.generation,
        a.operation is None ==> a.session_id == b.session_id,
{
}

/// A token just given matches, unless its operation is already over.
pub proof fn law_fresh_token_matches(slots: OperationSlots, ops: OperationsView, session_id: u64)
    ensures
        slots.matches(ops, session_id, slots.token(ops, session_id)) <==> (slots.current(ops) matches Some(id) ==> !ops.finished(
            id,
        )),
{
}

/// A commit for a reload or rebuild happens only in that operation's turn at the front.
pub proof fn law_commit_only_in_turn(slots: OperationSlots, ops: OperationsView, key: BackendKeyView, session_id: u64, token: SharedAnalyzerOperationToken)
    requires
        slots.gate(ops, key, session_id, token) == CommitGate::Commit,
        slots.normal is None,
        slots.reload is Some || slots.rebuild is Some,
    ensures
        (slots.reload is Some && ops.at_front(key, slots.reload->0)) || (slots.rebuild is Some && ops.at_front(
            key,
            slots.rebuild->0,
        )),
        slots.matches(ops, session_id, token),
{
}

/// Handing operations over loses none that is not over.
pub proof fn law_transfer_keeps_open_operations(ops: OperationsView, source: Option<u64>, target: Option<u64>)
    requires
        open_slot(ops, source) ==> target is None,
    ensures
        open_slot(ops, source) ==> handed(ops, source, target) == source,
        !open_slot(ops, source) ==> handed(ops, source, target) == target,
{
}

/// A reload that is taken back leaves the queue as it was.
proof fn lemma_coalesced_queue(registry: RegistryView, key: BackendKeyView)
    requires
        registry.operations.wf(),
        registry.operations.next < u64::MAX,
    ensures
        coalesced(registry, key).operations.queue(key.shared_world) == registry.operations.queue(key.shared_world),
{
    let ops = registry.operations;
    let world = key.shared_world;
    let id = ops.next;
    let was = ops.queue(world);
    let now = ops.enqueued(key, loads_in(registry, world)).queue(world);
    assert(now == was.push((key, id)));
    assert(now[was.len() as int] == (key, id));
    assert(now.contains((key, id)));
    assert(!was.contains((key, id))) by {
        if was.contains((key, id)) {
            let i = was.index_of((key, id));
            assert(!ops.finished(was[i].1));
        }
    }
    lemma_without_last(was, (key, id));
    assert(coalesced(registry, key).operations.queue(world) =~= was);
}

/// A session has at most one reload under way and one that waits, however often it asks: of three
/// requests in a row the first two are queued, one behind the other, and the third leaves the slots
/// and the queue as they are.
pub proof fn law_one_reload_waits(slots: OperationSlots, registry: RegistryView, key: BackendKeyView)
    requires
        registry.operations.wf(),
        registry.operations.next < u64::MAX - 2,
        slots.reload is None,
        slots.next_reload is None,
    ensures
        ({
            let id = registry.operations.next;
            let queue = registry.operations.queue(key.shared_world);
            let first = reload_begun(slots, registry, key);
            let second = reload_begun(first.0, first.1, key);
            let third = reload_begun(second.0, second.1, key);
            &&& first.0 == (OperationSlots { reload: Some(id), ..slots })
            &&& second.0 == (OperationSlots { reload: Some(id), next_reload: Some((id + 1) as u64), ..slots })
            &&& third.0 == second.0
            &&& first.1.operations.queue(key.shared_world) == queue.push((key, id))
            &&& second.1.operations.queue(key.shared_world) == queue.push((key, id)).push((key, (id + 1) as u64))
            &&& third.1.operations.queue(key.shared_world) == second.1.operations.queue(key.shared_world)
        }),
{
    let world = key.shared_world;
    let first = reload_begun(slots, registry, key);
    let second = reload_begun(first.0, first.1, key);
    lemma_enqueue_wf(registry.operations, key, loads_in(registry, world));
    lemma_enqueue_wf(first.1.operations, key, loads_in(first.1, world));
    lemma_coalesced_queue(second.1, key);
}

proof fn lemma_without_first<A>(s: Seq<A>, item: A, at: int)
    requires
        0 <= at < s.len(),
        s[at] == item,
        forall|i: int| 0 <= i < at ==> #[trigger] s[i] != item,
    ensures
        without(s, item) == s.remove(at),
    decreases s.len(),
{
    if at > 0 {
        let rest = s.drop_first();
        assert(rest[at - 1] == item);
        assert forall|i: int| 0 <= i < at - 1 implies #[trigger] rest[i] != item by {
            assert(rest[i] == s[i + 1]);
        }
        lemma_without_first(rest, item, at - 1);
        assert(s[0] != item);
        assert(seq![s[0]] + rest.remove(at - 1) =~= s.remove(at));
    } else {
        assert(s.drop_first() =~= s.remove(0));
    }
}

/// A queued operation that is given up has failed for the reason given and is not queued any more.
/// All others stay as they are, and in their order.
pub proof fn law_given_up_operation_has_failed(
    s: RegistryView,
    key: BackendKeyView,
    at: int,
    reason: Seq<char>,
    other: u64,
    world: crate::keys::WorldKeyView,
)
    requires
        s.operations.wf(),
        0 <= at < s.operations.queue(key.shared_world).len(),
        s.operations.queue(key.shared_world)[at].0 == key,
        other != s.operations.queue(key.shared_world)[at].1,
        world != key.shared_world,
    ensures
        ({
            let ops = s.operations;
            let queue = ops.queue(key.shared_world);
            let id = queue[at].1;
            let r = cancelled(s, key, Some(id), reason).operations;
            &&& r.records.contains_key(id) && r.records[id].result == Some(ResultView::Failed(reason))
            &&& r.records.contains_key(other) == ops.records.contains_key(other) && (ops.records.contains_key(other) ==> r.records[other]
                == ops.records[other])
            &&& r.queue(key.shared_world) == queue.remove(at)
            &&& r.queue(world) == ops.queue(world)
            &&& r.normals == ops.normals
            &&& r.next == ops.next
        }),
{
    let queue = s.operations.queue(key.shared_world);
    let item = queue[at];
    assert(!s.operations.finished(queue[at].1));
    assert(queue.contains(item));
    assert forall|i: int| 0 <= i < at implies #[trigger] queue[i] != item by {
        if queue[i] == item {
            assert(s.operations.queue(key.shared_world)[i].1 == s.operations.queue(key.shared_world)[at].1);
        }
    }
    lemma_without_first(queue, item, at);
}

/// A registered normal operation that is given up has failed for the reason given and is not
/// registered any more. All others stay as they are.
pub proof fn law_given_up_normal_operation_has_failed(s: RegistryView, key: BackendKeyView, at: int, reason: Seq<char>, other: u64)
    requires
        s.operations.wf(),
        0 <= at < s.operations.normal(key.shared_world).len(),
        other != s.operations.normal(key.shared_world)[at],
    ensures
        ({
            let ops = s.operations;
            let normal = ops.normal(key.shared_world);
            let id = normal[at];
            let r = normal_failed(s, key, Some(id), reason).operations;
            &&& r.records.contains_key(id) && r.records[id].result == Some(ResultView::Failed(reason))
            &&& r.records.contains_key(other) == ops.records.contains_key(other) && (ops.records.contains_key(other) ==> r.records[other]
                == ops.records[other])
            &&& r.normal(key.shared_world) == normal.remove(at)
            &&& r.queues == ops.queues
            &&& r.next == ops.next
        }),
{
    let normal = s.operations.normal(key.shared_world);
    let id = normal[at];
    assert(!s.operations.finished(normal[at]));
    assert(normal.contains(id));
    assert forall|i: int| 0 <= i < at implies #[trigger] normal[i] != id by {
        if normal[i] == id {
            assert(s.operations.normal(key.shared_world)[i] == s.operations.normal(key.shared_world)[at]);
        }
    }
    lemma_without_first(normal, id, at);
}

/// An operation that is over, or that is not queued under the key, is not given up.
pub proof fn law_ended_operations_are_not_given_up(s: RegistryView, key: BackendKeyView, slot: Option<u64>, reason: Seq<char>)
    ensures
        slot is None || !s.operations.records.contains_key(slot->0) || s.operations.records[slot->0].result is Some ==> cancelled(
            s,
            key,
            slot,
            reason,
        ) == s && normal_failed(s, key, slot, reason) == s,
        slot is Some && (forall|i: int|
            0 <= i < s.operations.queue(key.shared_world).len() ==> #[trigger] s.operations.queue(key.shared_world)[i] != (key, slot->0))
            ==> cancelled(s, key, slot, reason) == s,
        slot is Some && (forall|i: int|
            0 <= i < s.operations.normal(key.shared_world).len() ==> #[trigger] s.operations.normal(key.shared_world)[i] != slot->0)
            ==> normal_failed(s, key, slot, reason) == s,
{
}

/// A third reload that a session asks for is taken back: it has failed, and the queue is as it was.
pub proof fn law_further_reload_is_taken_back(slots: OperationSlots, registry: RegistryView, key: BackendKeyView)
    requires
        registry.operations.wf(),
        slots.reload is Some,
        slots.next_reload is Some,
        registry.operations.next < u64::MAX,
    ensures
        ({
            let (now, r) = reload_begun(slots, registry, key);
            let id = registry.operations.next;
            &&& now == slots
            &&& r.operations.records.contains_key(id) && r.operations.records[id].result is Some
            &&& r.operations.queue(key.shared_world) == registry.operations.queue(key.shared_world)
        }),
{
    let ops = registry.operations;
    let id = ops.next;
    let queue = ops.queue(key.shared_world);
    assert(!queue.contains((key, id))) by {
        if queue.contains((key, id)) {
            let i = queue.index_of((key, id));
            assert(!ops.finished(ops.queue(key.shared_world)[i].1));
            assert(ops.records.contains_key(id));
        }
    }
    let more = ops.enqueued(key, loads_in(registry, key.shared_world));
    assert(more.queue(key.shared_world) == queue.push((key, id)));
    assert(queue.push((key, id))[queue.len() as int] == (key, id));
    assert(more.queue(key.shared_world).contains((key, id)));
    lemma_without_last(queue, (key, id));
}

/// The first reload that a session asks for becomes its reload, the second waits behind it. Either comes
/// last in the queue, under the next number, and nothing that was queued before moves.
pub proof fn law_first_reloads_are_queued(slots: OperationSlots, registry: RegistryView, key: BackendKeyView)
    requires
        slots.reload is None || slots.next_reload is None,
    ensures
        ({
            let (now, r) = reload_begun(slots, registry, key);
            let id = registry.operations.next;
            &&& slots.reload is None ==> now == (OperationSlots { reload: Some(id), ..slots })
            &&& slots.reload is Some ==> now == (OperationSlots { next_reload: Some(id), ..slots })
            &&& r.operations.queue(key.shared_world) == registry.operations.queue(key.shared_world).push((key, id))
            &&& r.operations.records.contains_key(id) && r.operations.records[id].result is None
        }),
{
}

} // verus!
