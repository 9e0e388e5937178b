//! The stages of reloads and rebuilds: the requests for them, the fetching of workspaces and build
//! data, and the loading of macros.
use crate::build_update::{WorldUpdate, WorldUpdateView};
use crate::keys::{SharedAnalyzerBackendKey, SharedAnalyzerWorldKey, WorldKeyView};
use crate::macros::{
    is_current, prepared_data_views, with_build_data_to, with_loaded, MacroCommit, PreparedBuildData,
    SharedProcMacroLoadResponse,
};
use crate::operations::{ReloadView, SharedAnalyzerOperationToken};
use crate::registry::{loads_in, SharedAnalyzerRegistry};
use crate::reload_state::{
    lemma_finish_normal, normal_token, stage, text_view, Cause, ClientsEffect, OpQueue, ReloadState, ScopeView,
    SessionScope, Stage,
};
use crate::slots::{coalesced, turn_came, CommitGate, ExplicitSlot, OperationSlots};
use crate::tokens::same;
use crate::world::{SharedWorld, WorldView};
use vstd::prelude::*;

verus! {

impl ReloadState {
    /// Asks for a reload of the workspaces. The token is for the reload whose turn is to be awaited;
    /// there is none where a reload is already waiting behind one under way.
    pub fn handle_workspace_reload(
        &mut self,
        slots: &mut OperationSlots,
        registry: &mut SharedAnalyzerRegistry,
        scope: &SessionScope,
    ) -> (r: Option<SharedAnalyzerOperationToken>)
        requires
            old(registry)@.wf(),
            old(registry)@.operations.next < u64::MAX,
        ensures
            final(registry)@.wf(),
            r is None <==> old(slots).reload is Some && old(slots).next_reload is Some,
            r is None ==> *final(self) == *old(self) && *final(slots) == *old(slots) && final(registry)@ == coalesced(
                old(registry)@,
                scope.key@,
            ),
            r matches Some(token) ==> {
                &&& token == (SharedAnalyzerOperationToken {
                    session_id: scope.session_id,
                    operation: Some(old(registry)@.operations.next),
                    generation: 0,
                })
                &&& *final(self) == (ReloadState { clients: ClientsEffect::Clear, ..*old(self) })
                &&& *final(slots) == (if old(slots).reload is None {
                    OperationSlots { reload: token.operation, ..*old(slots) }
                } else {
                    OperationSlots { next_reload: token.operation, ..*old(slots) }
                })
                &&& final(registry)@ == old(registry)@.with_operations(
                    old(registry)@.operations.enqueued(scope.key@, loads_in(old(registry)@, scope.key@.shared_world)),
                )
            },
    {
        let token = slots.begin_reload(registry, scope.session_id, scope.key);
        if token.is_some() {
            self.clients = ClientsEffect::Clear;
        }
        token
    }

    /// Asks for a rebuild of the macros. One that is asked for while one is queued comes after it.
    pub fn handle_proc_macros_rebuild(
        &mut self,
        slots: &mut OperationSlots,
        registry: &mut SharedAnalyzerRegistry,
        scope: &SessionScope,
    )
        requires
            old(registry)@.wf(),
            old(registry)@.operations.next < u64::MAX,
        ensures
            final(registry)@.wf(),
            ({
                let st = stage(*old(self), *old(slots), old(registry)@);
                stage(*final(self), *final(slots), final(registry)@) == (if st.slots.rebuild is Some {
                    st.with(ReloadState { rebuild_queued: true, ..st.state })
                } else {
                    st.rebuild_begun(scope@).rebuild_prepared(scope@)
                })
            }),
    {
        if slots.rebuild_registered() {
            self.rebuild_queued = true;
        } else {
            proof {
                reveal(Stage::rebuild_begun);
            }
            if slots.begin_rebuild(registry, scope.key) {
                self.prepare_rebuild(slots, registry, scope);
            }
        }
    }

    /// The turn of a reload has come: the workspaces are to be fetched.
    pub fn handle_shared_reload_ready(
        &mut self,
        slots: &mut OperationSlots,
        registry: &SharedAnalyzerRegistry,
        operation: SharedAnalyzerOperationToken,
    ) -> (r: bool)
        ensures
            ({
                let ops = registry@.operations;
                let is_current = operation.operation is Some && old(slots).reload == operation.operation && turn_came(
                    ops,
                    operation.operation,
                );
                let is_next = operation.operation is Some && old(slots).reload is None && old(slots).next_reload
                    == operation.operation && turn_came(ops, operation.operation);
                &&& r == (is_current || is_next)
                &&& *final(slots) == (if is_next {
                    OperationSlots { reload: operation.operation, next_reload: None, ..*old(slots) }
                } else {
                    *old(slots)
                })
            }),
            *final(self) == (if r {
                ReloadState {
                    clients: ClientsEffect::Clear,
                    reload_workspace: true,
                    reload_pending: true,
                    proc_macro_clients_failed: false,
                    build_deps_changed: false,
                    fetch_workspaces_queue: old(self).fetch_workspaces_queue.asked(Cause::ReloadRequest),
                    ..*old(self)
                }
            } else {
                *old(self)
            }),
    {
        if !slots.activate_reload(registry, operation) {
            return false;
        }
        self.clients = ClientsEffect::Clear;
        self.reload_workspace = true;
        self.reload_pending = true;
        self.proc_macro_clients_failed = false;
        self.build_deps_changed = false;
        self.fetch_workspaces_queue.request_op(Cause::ReloadRequest);
        true
    }

    /// The turn of a rebuild has come: the build data is to be fetched.
    pub fn handle_shared_rebuild_ready(
        &mut self,
        slots: &OperationSlots,
        registry: &SharedAnalyzerRegistry,
        session_id: u64,
        operation: SharedAnalyzerOperationToken,
    )
        ensures
            *final(self) == (if slots.matches(registry@.operations, session_id, operation) && slots.rebuild is Some {
                ReloadState { reload_pending: true, rebuild_proc_macros: true, ..*old(self) }.asking_build_data(
                    Cause::RebuildRequest,
                )
            } else {
                *old(self)
            }),
    {
        if slots.operation_token_matches(registry, session_id, operation) && slots.rebuild_registered() {
            self.reload_pending = true;
            self.rebuild_proc_macros = true;
            self.ask_build_data(Cause::RebuildRequest);
        }
    }

    /// Asks for the workspaces once the settings have changed, if the session now belongs to
    /// another world or its world cannot be told.
    pub fn update_configuration(&mut self, before: Option<&SharedAnalyzerWorldKey>, after: Option<&SharedAnalyzerWorldKey>)
        ensures
            *final(self) == (if world_changed(key_view(before), key_view(after)) && old(self).fetch_workspaces_queue.requested is None {
                ReloadState {
                    fetch_workspaces_queue: old(self).fetch_workspaces_queue.asked(Cause::ConfigChanged),
                    ..*old(self)
                }
            } else {
                *old(self)
            }),
    {
        let changed = match (before, after) {
            (Some(before), Some(after)) => !same(before, after),
            _ => true,
        };
        if changed && !self.fetch_workspaces_queue.op_requested() {
            self.fetch_workspaces_queue.request_op(Cause::ConfigChanged);
        }
    }

    /// Asks for the workspaces once another session has changed them.
    pub fn handle_workspace_updated(&mut self, pending: bool)
        ensures
            *final(self) == (if pending {
                ReloadState {
                    fetch_workspaces_queue: old(self).fetch_workspaces_queue.asked(Cause::WorkspaceUpdated),
                    ..*old(self)
                }
            } else {
                *old(self)
            }),
    {
        if pending {
            self.fetch_workspaces_queue.request_op(Cause::WorkspaceUpdated);
        }
    }
}

pub open spec fn key_view(key: Option<&SharedAnalyzerWorldKey>) -> Option<WorldKeyView> {
    match key {
        Some(key) => Some(key@),
        None => None,
    }
}

pub open spec fn world_changed(before: Option<WorldKeyView>, after: Option<WorldKeyView>) -> bool {
    before is None || before != after
}

/// How workspaces are to be fetched.
#[derive(Clone, Copy, Debug, PartialEq, Eq, Structural)]
pub struct WorkspaceFetch {
    pub reload: bool,
    pub reload_id: Option<u64>,
    /// The reload that the fetching goes on with.
    pub continuation: Option<SharedAnalyzerOperationToken>,
    /// Workspaces that have their build data may be taken over as they are.
    pub can_adopt: bool,
    /// The workspaces were changed by another session, and are to be taken over.
    pub adopted: bool,
}

impl WorkspaceFetch {
    /// Whether the workspaces that came in are to be taken over as they are.
    pub fn adopts(&self, build_data_loaded: bool) -> (r: bool)
        ensures
            r == (self.adopted || (self.can_adopt && build_data_loaded)),
    {
        self.adopted || (self.can_adopt && build_data_loaded)
    }
}

impl ReloadState {
    /// Works out how the workspaces are to be fetched. News of a change by another session, of
    /// which the session was told under this key, is used up by it.
    pub fn fetch_workspaces(
        &mut self,
        slots: &OperationSlots,
        registry: &SharedAnalyzerRegistry,
        world: &mut SharedWorld,
        session_id: u64,
        key: &SharedAnalyzerBackendKey,
        wanted: Option<&SharedAnalyzerBackendKey>,
        with_path: bool,
    ) -> (r: WorkspaceFetch)
        requires
            old(self).reload_workspace ==> old(self).workspace_reload_id < u64::MAX,
        ensures
            *final(self) == (if old(self).reload_workspace {
                ReloadState {
                    reload_workspace: false,
                    workspace_reload_id: (old(self).workspace_reload_id + 1) as u64,
                    ..*old(self)
                }
            } else {
                *old(self)
            }),
            r.reload == old(self).reload_workspace,
            r.reload_id == (if r.reload {
                Some(final(self).workspace_reload_id)
            } else {
                None
            }),
            r.continuation is Some <==> stage(*old(self), *slots, registry@).reload_active(),
            r.continuation matches Some(token) ==> token.session_id == session_id && token.operation == slots.reload
                && token.generation == crate::slots::generation_of(registry@.operations, slots.reload),
            r.can_adopt == (r.continuation is None && !r.reload && !with_path),
            ({
                let asked = r.can_adopt && (wanted matches Some(wanted) && wanted@ == key@);
                let news = old(world)@.updates.contains_key(session_id) && old(world)@.updates[session_id].pending;
                &&& r.adopted == (asked && news)
                &&& final(world)@ == (if asked && old(world)@.updates.contains_key(session_id) {
                    WorldView {
                        updates: old(world)@.updates.insert(
                            session_id,
                            crate::world::UpdateView { pending: false, ..old(world)@.updates[session_id] },
                        ),
                        ..old(world)@
                    }
                } else {
                    old(world)@
                })
            }),
    {
        let reload = self.reload_workspace;
        let reload_id = if reload {
            self.reload_workspace = false;
            self.workspace_reload_id = self.workspace_reload_id + 1;
            Some(self.workspace_reload_id)
        } else {
            None
        };
        let continuation = slots.reload_operation_token(registry, session_id);
        let can_adopt = continuation.is_none() && !reload && !with_path;
        let own = match wanted {
            Some(wanted) => same(wanted, key),
            None => false,
        };
        let adopted = if can_adopt && own {
            world.take_workspace_update(session_id)
        } else {
            false
        };
        WorkspaceFetch { reload, reload_id, continuation, can_adopt, adopted }
    }
}

/// What is to be done for build data.
#[derive(Clone, Copy, Debug, PartialEq, Eq, Structural)]
pub enum BuildDataStart {
    /// Take over the build data that the workspaces in the list have.
    Adopt(u64),
    /// Wait for the turn of the operation, and ask again.
    Wait(SharedAnalyzerOperationToken),
    Fetch,
}

/// What is to be done for macros.
#[derive(Clone, Copy, Debug, PartialEq, Eq, Structural)]
pub enum MacroStart {
    Wait(SharedAnalyzerOperationToken),
    Load,
}

impl Stage {
    /// A normal operation is under way, unless a reload or rebuild is.
    #[verifier::opaque]
    pub open spec fn normal_begun(self, sc: ScopeView) -> Stage {
        if self.state.reload_pending || self.slots.normal is Some {
            self
        } else {
            Stage {
                slots: OperationSlots { normal: Some(self.registry.operations.next), ..self.slots },
                registry: self.registry.with_operations(self.registry.operations.normal_begun(sc.key.shared_world)),
                ..self
            }
        }
    }

    /// The session may go on at once: a reload or rebuild is under way, or the normal operation was
    /// there, or it may run.
    pub open spec fn may_go_on(self, sc: ScopeView) -> bool {
        self.state.reload_pending || self.slots.normal is Some || self.normal_begun(sc).registry.operations.normal_ready(
            sc.key.shared_world,
            self.registry.operations.next,
        )
    }

    pub open spec fn build_data_begun(self, sc: ScopeView) -> Stage {
        let st = self.normal_begun(sc);
        let state = ReloadState {
            build_data_operation: Some(st.slots.token(st.registry.operations, sc.session_id)),
            build_data_reload: st.state.reload_pending,
            build_data_generation: sc.generation,
            ..st.state
        };
        st.with(
            if state.rebuild_proc_macros {
                let id = (state.proc_macro_rebuild_id + 1) as u64;
                ReloadState {
                    rebuild_proc_macros: false,
                    proc_macro_rebuild_id: id,
                    rebuilding_proc_macros: Some(id),
                    build_data_rebuild_id: Some(id),
                    ..state
                }
            } else {
                ReloadState { build_data_rebuild_id: None, ..state }
            },
        )
    }
}

impl ReloadState {
    fn begin_normal(&mut self, slots: &mut OperationSlots, registry: &mut SharedAnalyzerRegistry, scope: &SessionScope) -> (r: bool)
        requires
            old(registry)@.wf(),
            old(registry)@.operations.next < u64::MAX,
        ensures
            final(registry)@.wf(),
            *final(self) == *old(self),
            stage(*final(self), *final(slots), final(registry)@) == stage(*old(self), *old(slots), old(registry)@).normal_begun(scope@),
            r == stage(*old(self), *old(slots), old(registry)@).may_go_on(scope@),
    {
        proof {
            reveal(Stage::normal_begun);
        }
        if self.reload_pending {
            return true;
        }
        slots.begin_normal_operation(registry, scope.key)
    }

    fn note_build_data(&mut self, token: SharedAnalyzerOperationToken, generation: u64)
        requires
            old(self).rebuild_proc_macros ==> old(self).proc_macro_rebuild_id < u64::MAX,
        ensures
            ({
                let state = ReloadState {
                    build_data_operation: Some(token),
                    build_data_reload: old(self).reload_pending,
                    build_data_generation: generation,
                    ..*old(self)
                };
                *final(self) == (if state.rebuild_proc_macros {
                    let id = (state.proc_macro_rebuild_id + 1) as u64;
                    ReloadState {
                        rebuild_proc_macros: false,
                        proc_macro_rebuild_id: id,
                        rebuilding_proc_macros: Some(id),
                        build_data_rebuild_id: Some(id),
                        ..state
                    }
                } else {
                    ReloadState { build_data_rebuild_id: None, ..state }
                })
            }),
    {
        self.build_data_operation = Some(token);
        self.build_data_reload = self.reload_pending;
        self.build_data_generation = generation;
        if self.rebuild_proc_macros {
            self.rebuild_proc_macros = false;
            self.proc_macro_rebuild_id = self.proc_macro_rebuild_id + 1;
            self.rebuilding_proc_macros = Some(self.proc_macro_rebuild_id);
            self.build_data_rebuild_id = self.rebuilding_proc_macros;
        } else {
            self.build_data_rebuild_id = None;
        }
    }

    fn adopt_workspaces(&mut self, list: u64)
        ensures
            *final(self) == (ReloadState {
                workspace_adoption: None,
                build_data_adoption: true,
                workspaces: list,
                build_deps_changed: false,
                ..*old(self)
            }),
    {
        self.workspace_adoption = None;
        self.build_data_adoption = true;
        self.workspaces = list;
        self.build_deps_changed = false;
    }

    /// Begins the stage that fetches build data: workspaces to be taken over bring theirs; else the
    /// session needs its turn.
    #[verifier::rlimit(40)]
    pub fn fetch_build_data(
        &mut self,
        slots: &mut OperationSlots,
        registry: &mut SharedAnalyzerRegistry,
        scope: &SessionScope,
    ) -> (r: BuildDataStart)
        requires
            old(registry)@.wf(),
            old(registry)@.operations.next < u64::MAX,
            old(self).rebuild_proc_macros ==> old(self).proc_macro_rebuild_id < u64::MAX,
        ensures
            final(registry)@.wf(),
            ({
                let st = stage(*old(self), *old(slots), old(registry)@);
                let plain = st.with(ReloadState { build_data_adoption: false, ..st.state });
                let begun = plain.normal_begun(scope@);
                let after = stage(*final(self), *final(slots), final(registry)@);
                match st.state.workspace_adoption {
                    Some(list) => r == BuildDataStart::Adopt(list) && after == st.with(
                        ReloadState {
                            workspace_adoption: None,
                            build_data_adoption: true,
                            workspaces: list,
                            build_deps_changed: false,
                            ..st.state
                        },
                    ),
                    None => if !plain.may_go_on(scope@) {
                        r == BuildDataStart::Wait(begun.slots.token(begun.registry.operations, scope@.session_id)) && after == begun
                    } else {
                        r == BuildDataStart::Fetch && after == plain.build_data_begun(scope@)
                    },
                }
            }),
    {
        match self.workspace_adoption {
            Some(list) => {
                self.adopt_workspaces(list);
                return BuildDataStart::Adopt(list);
            },
            None => {},
        }
        self.build_data_adoption = false;
        let goes_on = self.begin_normal(slots, registry, scope);
        let token = slots.operation_token(registry, scope.session_id);
        if !goes_on {
            return BuildDataStart::Wait(token);
        }
        self.note_build_data(token, scope.world.workspace_generation);
        BuildDataStart::Fetch
    }

    /// Begins the stage that loads macros, for which the session needs its turn.
    pub fn fetch_proc_macros(
        &mut self,
        slots: &mut OperationSlots,
        registry: &mut SharedAnalyzerRegistry,
        scope: &SessionScope,
    ) -> (r: MacroStart)
        requires
            old(registry)@.wf(),
            old(registry)@.operations.next < u64::MAX,
        ensures
            final(registry)@.wf(),
            ({
                let st = stage(*old(self), *old(slots), old(registry)@);
                let begun = st.normal_begun(scope@);
                let token = begun.slots.token(begun.registry.operations, scope@.session_id);
                let after = stage(*final(self), *final(slots), final(registry)@);
                if !st.may_go_on(scope@) {
                    r == MacroStart::Wait(token) && after == begun
                } else {
                    r == MacroStart::Load && after == begun.with(
                        ReloadState { proc_macro_operation: Some(token), ..begun.state },
                    )
                }
            }),
    {
        let goes_on = self.begin_normal(slots, registry, scope);
        let token = slots.operation_token(registry, scope.session_id);
        if !goes_on {
            return MacroStart::Wait(token);
        }
        self.proc_macro_operation = Some(token);
        MacroStart::Load
    }
}

impl Stage {
    /// The macros that came in are for the operation under way.
    pub open spec fn macros_current(self, sc: ScopeView) -> bool {
        self.state.proc_macro_operation matches Some(token) && self.slots.matches(
            self.registry.operations,
            sc.session_id,
            token,
        )
    }

    /// The normal operation ends, if the macros were loaded for it.
    #[verifier::opaque]
    pub open spec fn macro_operation_ended(self, sc: ScopeView, error: Option<Seq<char>>) -> Stage {
        let after = self.finish_normal(sc, error);
        if self.can_finish_normal(sc) {
            after.stages_cleared()
        } else {
            after
        }
    }

    /// The operation for which macros were loaded ends with them.
    #[verifier::opaque]
    pub open spec fn macros_answered(self, sc: ScopeView, update: WorldUpdateView) -> Stage {
        match update {
            WorldUpdateView::Applied => if self.state.rebuilding_proc_macros is Some {
                self.rebuild_ended(sc, None)
            } else {
                self.reload_ended(sc, None)
            },
            WorldUpdateView::Stale => self,
            WorldUpdateView::Failed(error) => if self.state.rebuilding_proc_macros is Some {
                self.rebuild_ended(sc, Some(error))
            } else if self.can_finish(sc, ExplicitSlot::Reload) {
                self.reload_ended(sc, Some(error))
            } else {
                let after = self.reload_ended(sc, Some(error));
                if normal_token(after, after.state.proc_macro_operation) {
                    after.macro_operation_ended(sc, Some(error))
                } else {
                    after
                }
            },
        }
    }

    /// The session once macros have come in, given how the world took them.
    pub open spec fn macros_taken(self, sc: ScopeView, update: WorldUpdateView) -> Stage {
        let st = self.with(
            ReloadState {
                fetch_proc_macros_queue: OpQueue { in_progress: false, ..self.state.fetch_proc_macros_queue },
                ..self.state
            },
        );
        if st.macros_current(sc) {
            st.macros_answered(sc, update).refreshed()
        } else {
            st.refreshed()
        }
    }

    /// Nothing explicit is under way, and the normal operation is that of the macros.
    pub open spec fn at_rest(self, normal_current: bool) -> bool {
        !self.state.reload_pending && !self.state.proc_macro_clients_failed && normal_current
    }

    /// Macros that came too late: the rebuild is begun anew, or the reload goes on.
    #[verifier::opaque]
    pub open spec fn macros_retried(self, sc: ScopeView, normal_current: bool) -> Stage {
        if self.state.rebuilding_proc_macros is Some {
            self.with(
                ReloadState { rebuilding_proc_macros: None, rebuild_proc_macros: true, ..self.state }.asking_build_data(
                    Cause::MacrosStale,
                ),
            )
        } else if self.at_rest(normal_current) {
            self.macro_operation_ended(sc, Some("shared proc-macro result became stale"@)).advanced(sc)
        } else {
            self.advanced(sc)
        }
    }

    /// The normal operation is over once no macros wait.
    #[verifier::opaque]
    pub open spec fn macros_done(self, sc: ScopeView, normal_current: bool) -> Stage {
        if self.at_rest(normal_current) && !self.macros_wait(sc) {
            self.macro_operation_ended(sc, None)
        } else {
            self
        }
    }

    /// The session once its crates are up to date with the macros.
    pub open spec fn macros_settled(self, sc: ScopeView, retry: bool, expand: bool) -> Stage {
        let normal_current = normal_token(self, self.state.proc_macro_operation);
        if retry {
            let again = self.macros_retried(sc, normal_current);
            if expand && !again.state.rebuild_proc_macros && again.macros_wait(sc)
                && again.state.fetch_proc_macros_queue.idle() {
                again.with(again.state.asking_macros(Cause::MacrosStale))
            } else {
                again.macros_done(sc, normal_current)
            }
        } else {
            self.macros_done(sc, normal_current)
        }
    }
}

impl ReloadState {
    /// Whether macros that have come in are for the operation under way, and may be handed to the
    /// world.
    pub fn macro_response_current(
        &self,
        slots: &OperationSlots,
        registry: &SharedAnalyzerRegistry,
        scope: &SessionScope,
    ) -> (r: bool)
        ensures
            r == stage(*self, *slots, registry@).macros_current(scope@),
    {
        match self.proc_macro_operation {
            Some(token) => slots.operation_token_matches(registry, scope.session_id, token),
            None => false,
        }
    }

    fn end_macro_operation(
        &mut self,
        slots: &mut OperationSlots,
        registry: &mut SharedAnalyzerRegistry,
        scope: &SessionScope,
        error: Option<&str>,
    )
        requires
            old(registry)@.wf(),
        ensures
            final(registry)@.wf(),
            stage(*final(self), *final(slots), final(registry)@) == stage(*old(self), *old(slots), old(registry)@).macro_operation_ended(
                scope@,
                text_view(error),
            ),
    {
        proof {
            reveal(Stage::macro_operation_ended);
        }
        if self.finish_normal(slots, registry, scope, error) {
            self.clear_stage_operations();
        }
    }

    fn answer_macros(
        &mut self,
        slots: &mut OperationSlots,
        registry: &mut SharedAnalyzerRegistry,
        scope: &SessionScope,
        update: &WorldUpdate,
    )
        requires
            old(registry)@.wf(),
            old(registry)@.operations.next < u64::MAX,
        ensures
            final(registry)@.wf(),
            stage(*final(self), *final(slots), final(registry)@) == stage(*old(self), *old(slots), old(registry)@).macros_answered(
                scope@,
                update@,
            ),
    {
        proof {
            reveal(Stage::macros_answered);
        }
        match update {
            WorldUpdate::Applied => {
                if self.rebuilding_proc_macros.is_some() {
                    self.end_rebuild(slots, registry, scope, None);
                } else {
                    self.end_reload(slots, registry, scope, None);
                }
            },
            WorldUpdate::Stale => {},
            WorldUpdate::Failed(error) => {
                if self.rebuilding_proc_macros.is_some() {
                    self.end_rebuild(slots, registry, scope, Some(error.as_str()));
                } else {
                    let ends = self.reload_ends(slots, registry, scope);
                    self.end_reload(slots, registry, scope, Some(error.as_str()));
                    if !ends {
                        let ghost after = stage(*self, *slots, registry@);
                        let normal = Self::is_normal(self.proc_macro_operation, slots, registry);
                        proof {
                            assert(normal == normal_token(after, after.state.proc_macro_operation));
                        }
                        if normal {
                            self.end_macro_operation(slots, registry, scope, Some(error.as_str()));
                        }
                    }
                }
            },
        }
    }

    /// Whether the reload is at the front and can end.
    fn reload_ends(&self, slots: &OperationSlots, registry: &SharedAnalyzerRegistry, scope: &SessionScope) -> (r: bool)
        ensures
            r == stage(*self, *slots, registry@).can_finish(scope@, ExplicitSlot::Reload),
    {
        match slots.reload {
            Some(id) => registry.begin_operation_phase(scope.key, id),
            None => false,
        }
    }

    fn complete_macros(&mut self)
        requires
            old(self).fetch_proc_macros_queue.in_progress,
        ensures
            *final(self) == (ReloadState {
                fetch_proc_macros_queue: OpQueue { in_progress: false, ..old(self).fetch_proc_macros_queue },
                ..*old(self)
            }),
    {
        self.fetch_proc_macros_queue.op_completed();
    }

    /// Takes macros that have come in, given how the world took them, and tells whether they have
    /// to be loaded again.
    pub fn take_macros(
        &mut self,
        slots: &mut OperationSlots,
        registry: &mut SharedAnalyzerRegistry,
        scope: &SessionScope,
        update: &WorldUpdate,
    ) -> (retry: bool)
        requires
            old(registry)@.wf(),
            old(registry)@.operations.next < u64::MAX,
            old(self).fetch_proc_macros_queue.in_progress,
        ensures
            final(registry)@.wf(),
            stage(*final(self), *final(slots), final(registry)@) == stage(*old(self), *old(slots), old(registry)@).macros_taken(
                scope@,
                update@,
            ),
            retry == (!stage(*old(self), *old(slots), old(registry)@).macros_current(scope@) || update@ is Stale),
    {
        self.complete_macros();
        let current = self.macro_response_current(slots, registry, scope);
        let stale = match update {
            WorldUpdate::Stale => true,
            _ => false,
        };
        if current {
            self.answer_macros(slots, registry, scope, update);
        }
        self.refresh_proc_macro_clients(slots);
        !current || stale
    }

    fn ask_rebuild_again(&mut self)
        ensures
            *final(self) == (ReloadState { rebuilding_proc_macros: None, rebuild_proc_macros: true, ..*old(self) }).asking_build_data(
                Cause::MacrosStale,
            ),
    {
        self.rebuilding_proc_macros = None;
        self.rebuild_proc_macros = true;
        self.ask_build_data(Cause::MacrosStale);
    }

    fn retry_macros(
        &mut self,
        slots: &mut OperationSlots,
        registry: &mut SharedAnalyzerRegistry,
        scope: &SessionScope,
        normal_current: bool,
    )
        requires
            old(registry)@.wf(),
            old(registry)@.operations.next < u64::MAX,
        ensures
            final(registry)@.wf(),
            stage(*final(self), *final(slots), final(registry)@) == stage(*old(self), *old(slots), old(registry)@).macros_retried(
                scope@,
                normal_current,
            ),
    {
        let ghost st = stage(*self, *slots, registry@);
        proof {
            reveal(Stage::macros_retried);
        }
        if self.rebuilding_proc_macros.is_some() {
            self.ask_rebuild_again();
            return;
        }
        if !self.reload_pending && !self.proc_macro_clients_failed && normal_current {
            proof {
                lemma_finish_normal(st, scope@, Some("shared proc-macro result became stale"@));
                reveal(Stage::macro_operation_ended);
            }
            self.end_macro_operation(slots, registry, scope, Some("shared proc-macro result became stale"));
        }
        self.advance_reload(slots, registry, scope);
    }

    fn finish_macros(
        &mut self,
        slots: &mut OperationSlots,
        registry: &mut SharedAnalyzerRegistry,
        scope: &SessionScope,
        normal_current: bool,
    )
        requires
            old(registry)@.wf(),
        ensures
            final(registry)@.wf(),
            stage(*final(self), *final(slots), final(registry)@) == stage(*old(self), *old(slots), old(registry)@).macros_done(
                scope@,
                normal_current,
            ),
    {
        let ghost st = stage(*self, *slots, registry@);
        proof {
            reveal(Stage::macros_done);
        }
        if !self.reload_pending && !self.proc_macro_clients_failed && normal_current {
            let waiting = scope.proc_macros_pending(slots, registry);
            proof {
                assert(waiting == st.macros_wait(scope@));
            }
            if !waiting {
                self.end_macro_operation(slots, registry, scope, None);
            }
        }
    }

    /// Goes on once the crates are up to date with the macros: macros that came too late are loaded
    /// again, and an operation with nothing left to do ends.
    pub fn settle_macros(
        &mut self,
        slots: &mut OperationSlots,
        registry: &mut SharedAnalyzerRegistry,
        scope: &SessionScope,
        retry: bool,
        expand_proc_macros: bool,
    )
        requires
            old(registry)@.wf(),
            old(registry)@.operations.next < u64::MAX,
        ensures
            final(registry)@.wf(),
            stage(*final(self), *final(slots), final(registry)@) == stage(*old(self), *old(slots), old(registry)@).macros_settled(
                scope@,
                retry,
                expand_proc_macros,
            ),
    {
        let ghost st = stage(*self, *slots, registry@);
        let normal_current = Self::is_normal(self.proc_macro_operation, slots, registry);
        proof {
            assert(normal_current == normal_token(st, st.state.proc_macro_operation));
        }
        if retry {
            self.retry_macros(slots, registry, scope, normal_current);
            let ghost again = stage(*self, *slots, registry@);
            if expand_proc_macros && !self.rebuild_proc_macros && !self.fetch_proc_macros_queue.op_requested()
                && !self.fetch_proc_macros_queue.in_progress {
                let waiting = scope.proc_macros_pending(slots, registry);
                proof {
                    assert(waiting == again.macros_wait(scope@));
                }
                if waiting {
                    self.ask_macros(Cause::MacrosStale);
                    return;
                }
            }
        }
        self.finish_macros(slots, registry, scope, normal_current);
    }
}

/// A reload ends of itself only where none of its workspaces lacks build data or waits for macros.
pub proof fn law_reload_ends_complete(st: Stage, sc: ScopeView)
    requires
        st.reload_active(),
        st.advanced(sc).slots.reload != st.slots.reload || st.advanced(sc).registry != st.registry,
    ensures
        !st.with(ReloadState { reload_pending: true, ..st.state }).builds_wait(sc),
        !st.with(ReloadState { reload_pending: true, ..st.state }).macros_wait(sc),
        st.state.fetch_build_data_queue.idle(),
        st.state.fetch_proc_macros_queue.idle(),
{
}

/// Build data that the world did not take because it was stale is fetched again.
pub proof fn law_stale_build_data_is_fetched_again(st: Stage, sc: ScopeView, reload: bool, expand: bool)
    ensures
        st.build_refused(sc, reload, WorldUpdateView::Stale).state.fetch_build_data_queue.requested is Some,
        st.rebuild_answered(sc, expand, WorldUpdateView::Stale).state.fetch_build_data_queue.requested is Some,
        st.rebuild_answered(sc, expand, WorldUpdateView::Stale).state.rebuild_proc_macros,
{
    reveal(Stage::build_refused);
    reveal(Stage::rebuild_answered);
}

/// A session lists the macro servers of its workspaces only while it has no reload or rebuild under
/// way or waiting.
pub proof fn law_servers_are_listed_at_rest(st: Stage)
    requires
        st.state.clients == ClientsEffect::Keep,
        st.refreshed().state.clients == ClientsEffect::Refresh,
    ensures
        !st.state.reload_pending,
        st.slots.reload is None && st.slots.next_reload is None && st.slots.rebuild is None,
{
    reveal(Stage::refreshed);
}

/// How loaded macros are handed to the world under a token.
pub fn commit_macros(
    gate: CommitGate,
    world: &mut SharedWorld,
    response: &SharedProcMacroLoadResponse,
) -> (r: (WorldUpdate, bool))
    ensures
        gate == CommitGate::Skip ==> r.0@ is Stale && !r.1 && final(world)@ == old(world)@,
        gate == CommitGate::Unregistered ==> r.0@ == WorldUpdateView::Failed("shared operation is no longer registered"@) && !r.1
            && final(world)@ == old(world)@,
        gate == CommitGate::Commit ==> {
            let ws = old(world)@.base.workspaces;
            let list = response.workspaces@;
            let n = crate::macros::first_missing(ws.len(), list);
            let current = response.generation == old(world)@.workspace_generation;
            &&& r.1 == (current && list.len() > 0 && n == list.len())
            &&& r.0@ is Applied <==> current && (list.len() == 0 || n == list.len())
            &&& r.0@ is Applied || r.0@ is Stale
            &&& final(world)@ == (if current && list.len() > 0 {
                crate::macros::with_loaded(old(world)@, crate::macros::with_macros_to(ws, list, n))
            } else {
                old(world)@
            })
        },
{
    match gate {
        CommitGate::Skip => (WorldUpdate::Stale, false),
        CommitGate::Unregistered => (WorldUpdate::Failed(String::from_str("shared operation is no longer registered")), false),
        CommitGate::Commit => match world.commit_proc_macro_load(response) {
            MacroCommit::Stale => (WorldUpdate::Stale, false),
            MacroCommit::Empty => (WorldUpdate::Applied, false),
            MacroCommit::Applied => (WorldUpdate::Applied, true),
            MacroCommit::Missing => (WorldUpdate::Stale, false),
        },
    }
}

/// How prepared build data is handed to the world under a token. A reload or rebuild that was
/// committed notes the keys of its servers.
pub fn commit_build(
    gate: CommitGate,
    world: &mut SharedWorld,
    slots: &OperationSlots,
    registry: &mut SharedAnalyzerRegistry,
    prepared: PreparedBuildData,
) -> (r: WorldUpdate)
    requires
        old(registry)@.wf(),
        forall|i: int| 0 <= i < prepared.workspaces@.len() ==> (#[trigger] prepared.workspaces@[i]).index < old(world)@.base.workspaces.len(),
    ensures
        final(registry)@.wf(),
        gate == CommitGate::Skip ==> r@ is Stale,
        gate == CommitGate::Unregistered ==> r@ == WorldUpdateView::Failed("shared operation is no longer registered"@),
        gate == CommitGate::Commit ==> {
            let current = is_current(old(world)@, prepared.generation, prepared_data_views(prepared.workspaces@));
            r@ == (if current {
                WorldUpdateView::Applied
            } else {
                WorldUpdateView::Stale
            })
        },
        r@ is Applied ==> final(world)@ == with_loaded(
            old(world)@,
            with_build_data_to(old(world)@.base.workspaces, prepared_data_views(prepared.workspaces@), prepared.workspaces@.len() as int),
        ),
        !(r@ is Applied) ==> final(world)@ == old(world)@,
        r@ is Applied && prepared.operation_keys is Some ==> {
            let ops = old(registry)@.operations;
            let slot = if (prepared.operation_keys->0).0 {
                slots.rebuild
            } else {
                slots.reload
            };
            final(registry)@ == (if slot is Some && ops.records.contains_key(slot->0) {
                old(registry)@.with_operations(
                    ops.with_record(
                        slot->0,
                        (ReloadView { keys: (prepared.operation_keys->0).1.deep_view(), ..ops.records[slot->0] }),
                    ),
                )
            } else {
                old(registry)@
            })
        },
        !(r@ is Applied) || prepared.operation_keys is None ==> final(registry)@ == old(registry)@,
        forall|next: u32| old(world)@.wf(next) ==> #[trigger] final(world)@.wf(next),
{
    match gate {
        CommitGate::Skip => WorldUpdate::Stale,
        CommitGate::Unregistered => WorldUpdate::Failed(String::from_str("shared operation is no longer registered")),
        CommitGate::Commit => {
            if !world.commit_build_data(prepared.generation, prepared.workspaces) {
                return WorldUpdate::Stale;
            }
            match prepared.operation_keys {
                Some((rebuild, keys)) => {
                    slots.set_operation_keys(registry, rebuild, keys);
                },
                None => {},
            }
            WorldUpdate::Applied
        },
    }
}

} // verus!
