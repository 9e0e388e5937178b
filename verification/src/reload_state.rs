//! Where a session stands between a request to reload or rebuild and its end.
use crate::base::LoadedView;
use crate::build_data::macro_scope;
use crate::keys::{BackendKeyView, SharedAnalyzerBackendKey};
use crate::macros::any_macros_pending;
use crate::operations::{without, OperationResult, ResultView, SharedAnalyzerOperationToken};
use crate::registry::{loads_in, RegistryView, SharedAnalyzerRegistry};
use crate::slots::{generation_of, ExplicitSlot, OperationSlots};
use crate::spawn::{SpawnConfig, SpawnConfigView};
use crate::spawn_key::SpawnKeyView;
use crate::view::copy_indexes;
use crate::world::SharedWorld;
use vstd::prelude::*;

verus! {

/// Why a stage is asked for.
#[derive(Clone, Copy, Debug, PartialEq, Eq, Structural)]
pub enum Cause {
    ReloadRequest,
    RebuildRequest,
    ConfigChanged,
    WorkspaceReload,
    WorkspaceUpdated,
    BuildDataStale,
    MacrosStale,
    MacrosChanged,
    /// For a reason of the caller's own.
    Given,
}

impl Cause {
    pub open spec fn words(self, given: Seq<char>) -> Seq<char> {
        match self {
            Cause::ReloadRequest => "reload workspace request"@,
            Cause::RebuildRequest => "rebuild proc macros request"@,
            Cause::ConfigChanged => "analysis database config changed"@,
            Cause::WorkspaceReload => "workspace reload"@,
            Cause::WorkspaceUpdated => "shared workspace updated"@,
            Cause::BuildDataStale => "shared build-data result became stale"@,
            Cause::MacrosStale => "shared proc-macro result became stale"@,
            Cause::MacrosChanged => "proc macros changed"@,
            Cause::Given => given,
        }
    }

    /// The cause in words, where the caller's own reason is given.
    pub fn text(self, given: &str) -> (r: String)
        ensures
            r@ == self.words(given@),
    {
        match self {
            Cause::ReloadRequest => String::from_str("reload workspace request"),
            Cause::RebuildRequest => String::from_str("rebuild proc macros request"),
            Cause::ConfigChanged => String::from_str("analysis database config changed"),
            Cause::WorkspaceReload => String::from_str("workspace reload"),
            Cause::WorkspaceUpdated => String::from_str("shared workspace updated"),
            Cause::BuildDataStale => String::from_str("shared build-data result became stale"),
            Cause::MacrosStale => String::from_str("shared proc-macro result became stale"),
            Cause::MacrosChanged => String::from_str("proc macros changed"),
            Cause::Given => String::from_str(given),
        }
    }
}

/// A stage that runs at most once at a time and is asked for at most once ahead.
#[derive(Clone, Copy, Debug, PartialEq, Eq, Structural)]
pub struct OpQueue {
    pub requested: Option<Cause>,
    pub in_progress: bool,
}

impl OpQueue {
    pub open spec fn idle(self) -> bool {
        self.requested is None && !self.in_progress
    }

    pub open spec fn asked(self, cause: Cause) -> OpQueue {
        OpQueue { requested: Some(cause), ..self }
    }

    pub fn new() -> (r: Self)
        ensures
            r == (OpQueue { requested: None, in_progress: false }),
    {
        OpQueue { requested: None, in_progress: false }
    }

    pub fn op_requested(&self) -> (r: bool)
        ensures
            r == (self.requested is Some),
    {
        self.requested.is_some()
    }

    pub fn request_op(&mut self, cause: Cause)
        ensures
            *final(self) == old(self).asked(cause),
    {
        self.requested = Some(cause);
    }

    /// Starts the stage if it is asked for and not running.
    pub fn should_start_op(&mut self) -> (r: Option<Cause>)
        ensures
            old(self).in_progress ==> r is None && *final(self) == *old(self),
            !old(self).in_progress ==> r == old(self).requested && *final(self) == (OpQueue {
                requested: None,
                in_progress: old(self).requested is Some,
            }),
    {
        if self.in_progress {
            return None;
        }
        let cause = self.requested;
        self.in_progress = cause.is_some();
        self.requested = None;
        cause
    }

    pub fn op_completed(&mut self)
        requires
            old(self).in_progress,
        ensures
            *final(self) == (OpQueue { in_progress: false, ..*old(self) }),
    {
        self.in_progress = false;
    }
}

/// Build data as it came in: for which rebuild, whether within a reload, and for which list of
/// workspaces.
#[derive(Clone, Copy, Debug, PartialEq, Eq, Structural)]
pub struct BuildDataResponse {
    pub rebuild_id: Option<u64>,
    pub reload: bool,
    pub workspaces: u64,
}

/// What is to be done with the session's list of macro servers.
#[derive(Clone, Copy, Debug, PartialEq, Eq, Structural)]
pub enum ClientsEffect {
    Keep,
    Clear,
    /// Take over the servers that the session's workspaces have now.
    Refresh,
}

/// What a session remembers of reloads and rebuilds. Lists of workspaces are known by number.
#[derive(Clone, Copy, Debug, PartialEq, Eq, Structural)]
pub struct ReloadState {
    pub reload_workspace: bool,
    pub rebuild_proc_macros: bool,
    pub rebuild_queued: bool,
    pub rebuilding_proc_macros: Option<u64>,
    pub proc_macro_rebuild_id: u64,
    pub rebuild_response_current: Option<u64>,
    pub build_data_response_current: bool,
    pub build_data_adoption: bool,
    pub build_data_rebuild_id: Option<u64>,
    pub build_data_reload: bool,
    pub build_data_generation: u64,
    pub build_data_operation: Option<SharedAnalyzerOperationToken>,
    pub proc_macro_operation: Option<SharedAnalyzerOperationToken>,
    pub reload_pending: bool,
    pub proc_macro_clients_failed: bool,
    pub workspace_reload_id: u64,
    pub handled_workspace_reload: Option<u64>,
    pub workspace_adoption: Option<u64>,
    pub build_deps_changed: bool,
    pub workspaces: u64,
    pub build_data_response: Option<BuildDataResponse>,
    pub fetch_workspaces_queue: OpQueue,
    /// Workspaces have come in that the session is to go over to.
    pub wants_to_switch: bool,
    pub fetch_build_data_queue: OpQueue,
    pub fetch_proc_macros_queue: OpQueue,
    /// What is to be done with the list of macro servers.
    pub clients: ClientsEffect,
    /// The other sessions on the workspaces are to be told of them.
    pub notify: bool,
    /// The rebuild whose turn is to be awaited.
    pub await_rebuild: Option<SharedAnalyzerOperationToken>,
}

/// What a step is about: the session, the key under which it queues, and what it works on.
pub struct SessionScope<'a> {
    pub session_id: u64,
    pub key: &'a SharedAnalyzerBackendKey,
    pub workspace_indexes: &'a Vec<usize>,
    pub world: &'a SharedWorld,
    pub config: &'a SpawnConfig,
}

#[verifier::ext_equal]
pub struct ScopeView {
    pub session_id: u64,
    pub key: BackendKeyView,
    pub indexes: Seq<usize>,
    pub workspaces: Seq<LoadedView>,
    pub generation: u64,
    pub config: SpawnConfigView,
}

impl<'a> View for SessionScope<'a> {
    type V = ScopeView;

    open spec fn view(&self) -> ScopeView {
        ScopeView {
            session_id: self.session_id,
            key: self.key@,
            indexes: self.workspace_indexes@,
            workspaces: self.world@.base.workspaces,
            generation: self.world@.workspace_generation,
            config: self.config@,
        }
    }
}

/// A session's state with its operations and everybody's queues.
pub struct Stage {
    pub state: ReloadState,
    pub slots: OperationSlots,
    pub registry: RegistryView,
}

pub open spec fn stage(state: ReloadState, slots: OperationSlots, registry: RegistryView) -> Stage {
    Stage { state, slots, registry }
}

/// A token stands for the session's normal operation.
pub open spec fn normal_token(st: Stage, token: Option<SharedAnalyzerOperationToken>) -> bool {
    token matches Some(t) && t.operation is Some && st.slots.normal == t.operation && t.generation == generation_of(
        st.registry.operations,
        st.slots.normal,
    ) && !st.registry.operations.finished(t.operation->0)
}

impl Stage {
    pub open spec fn with(self, state: ReloadState) -> Stage {
        Stage { state, ..self }
    }

    pub open spec fn ready(self, sc: ScopeView) -> bool {
        self.slots.ready(self.registry.operations, sc.key)
    }

    /// The keys of the macro servers that the running reload, or else the running rebuild, is about.
    pub open spec fn operation_keys(self) -> Option<Seq<SpawnKeyView>> {
        let ops = self.registry.operations;
        if self.slots.reload matches Some(id) && ops.in_turn(id) {
            Some(ops.records[self.slots.reload->0].keys)
        } else if self.slots.rebuild matches Some(id) && ops.in_turn(id) {
            Some(ops.records[self.slots.rebuild->0].keys)
        } else {
            None
        }
    }

    /// It is this session's turn, and a workspace lacks its build data.
    #[verifier::opaque]
    pub open spec fn builds_wait(self, sc: ScopeView) -> bool {
        self.ready(sc) && exists|i: int|
            0 <= i < sc.indexes.len() && (#[trigger] sc.indexes[i]) < sc.workspaces.len()
                && !sc.workspaces[sc.indexes[i] as int].build_data_loaded
    }

    /// It is this session's turn, and a workspace can have its macros loaded.
    #[verifier::opaque]
    pub open spec fn macros_wait(self, sc: ScopeView) -> bool {
        self.ready(sc) && any_macros_pending(
            sc.workspaces,
            macro_scope(sc.workspaces, sc.indexes, self.operation_keys(), Some(sc.config)),
        )
    }

    pub open spec fn outcome(sc: ScopeView, error: Option<Seq<char>>) -> ResultView {
        match error {
            None => ResultView::Done(sc.indexes),
            Some(error) => ResultView::Failed(error),
        }
    }

    /// The reload or the rebuild is at the front, and can end.
    pub open spec fn can_finish(self, sc: ScopeView, which: ExplicitSlot) -> bool {
        self.slots.explicit(which) matches Some(id) && self.registry.operations.at_front(sc.key, id)
    }

    /// The end of the reload or the rebuild, if it is at the front. Of a reload that went well the
    /// other sessions are told.
    #[verifier::opaque]
    pub open spec fn finish_explicit(self, sc: ScopeView, which: ExplicitSlot, error: Option<Seq<char>>) -> Stage {
        let ops = self.registry.operations;
        let slot = self.slots.explicit(which);
        let done = self.can_finish(sc, which);
        Stage {
            state: if done && error is None && which == ExplicitSlot::Reload {
                ReloadState { notify: true, ..self.state }
            } else {
                self.state
            },
            slots: if slot is Some && (done || ops.finished(slot->0)) {
                self.slots.cleared(which)
            } else {
                self.slots
            },
            registry: if done {
                self.registry.with_operations(
                    ops.closed_record(slot->0, Stage::outcome(sc, error)).with_queue(
                        sc.key.shared_world,
                        ops.queue(sc.key.shared_world).drop_first(),
                    ),
                )
            } else {
                self.registry
            },
        }
    }

    /// The normal operation is registered, and can end.
    pub open spec fn can_finish_normal(self, sc: ScopeView) -> bool {
        self.slots.normal matches Some(id) && self.registry.operations.normal(sc.key.shared_world).contains(id)
    }

    /// The end of the normal operation, if it is registered. Of one that went well the other
    /// sessions are told.
    #[verifier::opaque]
    pub open spec fn finish_normal(self, sc: ScopeView, error: Option<Seq<char>>) -> Stage {
        let ops = self.registry.operations;
        let done = self.can_finish_normal(sc);
        Stage {
            state: if done && error is None {
                ReloadState { notify: true, ..self.state }
            } else {
                self.state
            },
            slots: if self.slots.normal is Some && (done || ops.finished(self.slots.normal->0)) {
                OperationSlots { normal: None, ..self.slots }
            } else {
                self.slots
            },
            registry: if done {
                self.registry.with_operations(
                    ops.closed_record(self.slots.normal->0, Stage::outcome(sc, error)).with_normal(
                        sc.key.shared_world,
                        without(ops.normal(sc.key.shared_world), self.slots.normal->0),
                    ),
                )
            } else {
                self.registry
            },
        }
    }

    /// While nothing is under way, the session lists the servers of its workspaces.
    #[verifier::opaque]
    pub open spec fn refreshed(self) -> Stage {
        if !self.state.reload_pending && !self.state.proc_macro_clients_failed && self.slots.reload is None
            && self.slots.next_reload is None && self.slots.rebuild is None {
            self.with(ReloadState { clients: ClientsEffect::Refresh, ..self.state })
        } else {
            self
        }
    }

    pub open spec fn stages_cleared(self) -> Stage {
        self.with(ReloadState { proc_macro_operation: None, build_data_operation: None, ..self.state })
    }

    /// The token of the rebuild, as long as that is not over.
    pub open spec fn rebuild_token(self, sc: ScopeView) -> Option<SharedAnalyzerOperationToken> {
        let ops = self.registry.operations;
        if self.slots.rebuild is Some && !ops.finished(self.slots.rebuild->0) {
            Some(
                SharedAnalyzerOperationToken {
                    session_id: sc.session_id,
                    operation: self.slots.rebuild,
                    generation: generation_of(ops, self.slots.rebuild),
                },
            )
        } else {
            None
        }
    }

    #[verifier::opaque]
    pub open spec fn rebuild_begun(self, sc: ScopeView) -> Stage {
        Stage {
            slots: OperationSlots { rebuild: Some(self.registry.operations.next), ..self.slots },
            registry: self.registry.with_operations(
                self.registry.operations.enqueued(sc.key, loads_in(self.registry, sc.key.shared_world)),
            ),
            ..self
        }
    }

    #[verifier::opaque]
    pub open spec fn rebuild_prepared(self, sc: ScopeView) -> Stage {
        self.with(
            ReloadState {
                clients: ClientsEffect::Clear,
                rebuild_proc_macros: false,
                proc_macro_clients_failed: false,
                build_deps_changed: false,
                await_rebuild: self.rebuild_token(sc),
                ..self.state
            },
        )
    }

    /// A rebuild that was asked for meanwhile is queued, unless there is one.
    #[verifier::opaque]
    pub open spec fn queued_rebuild(self, sc: ScopeView) -> Stage {
        if !self.state.rebuild_queued || self.slots.rebuild is Some {
            self
        } else {
            let begun = self.rebuild_begun(sc);
            begun.with(ReloadState { rebuild_queued: false, ..begun.state }).rebuild_prepared(sc)
        }
    }

    #[verifier::opaque]
    pub open spec fn finished_shared(self, sc: ScopeView, failed: bool) -> Stage {
        let cleared = self.stages_cleared();
        cleared.with(ReloadState { reload_pending: false, proc_macro_clients_failed: failed, ..cleared.state }).queued_rebuild(sc)
    }

    /// There is a number for a rebuild that may have to be queued.
    pub open spec fn has_room(self) -> bool {
        self.state.rebuild_queued && self.slots.rebuild is None ==> self.registry.operations.next < u64::MAX
    }

    /// What the reload needs next, once its turn has come.
    pub open spec fn next_step(self, sc: ScopeView) -> ReloadStep {
        if !self.state.fetch_build_data_queue.idle() {
            ReloadStep::Wait
        } else if self.builds_wait(sc) {
            ReloadStep::FetchBuildData
        } else if !self.state.fetch_proc_macros_queue.idle() {
            ReloadStep::Wait
        } else if self.macros_wait(sc) {
            ReloadStep::LoadMacros
        } else {
            ReloadStep::Finish
        }
    }

    pub open spec fn reload_active(self) -> bool {
        let ops = self.registry.operations;
        crate::slots::turn_came(ops, self.slots.reload) && !ops.finished(self.slots.reload->0)
    }

    /// The reload goes on to its next stage, or ends.
    pub open spec fn advanced(self, sc: ScopeView) -> Stage {
        if !self.reload_active() {
            self
        } else {
            let st = self.with(ReloadState { reload_pending: true, ..self.state });
            match st.next_step(sc) {
                ReloadStep::Wait => st,
                ReloadStep::FetchBuildData => st.with(st.state.asking_build_data(Cause::WorkspaceReload)),
                ReloadStep::LoadMacros => st.with(st.state.asking_macros(Cause::WorkspaceReload)),
                ReloadStep::Finish => {
                    let after = st.finish_explicit(sc, ExplicitSlot::Reload, None);
                    if st.can_finish(sc, ExplicitSlot::Reload) {
                        after.finished_shared(sc, false)
                    } else {
                        after
                    }
                },
            }
        }
    }
}

/// What a reload needs next.
#[derive(Clone, Copy, Debug, PartialEq, Eq, Structural)]
pub enum ReloadStep {
    Wait,
    FetchBuildData,
    LoadMacros,
    Finish,
}

impl ReloadState {
    pub open spec fn asking_build_data(self, cause: Cause) -> ReloadState {
        ReloadState { fetch_build_data_queue: self.fetch_build_data_queue.asked(cause), ..self }
    }

    pub open spec fn asking_macros(self, cause: Cause) -> ReloadState {
        ReloadState { fetch_proc_macros_queue: self.fetch_proc_macros_queue.asked(cause), ..self }
    }
}

/// Ending an operation numbers none and asks for no rebuild.
pub proof fn lemma_finish_explicit(st: Stage, sc: ScopeView, which: ExplicitSlot, error: Option<Seq<char>>)
    ensures
        st.finish_explicit(sc, which, error).registry.operations.next == st.registry.operations.next,
        st.finish_explicit(sc, which, error).state == st.state || st.finish_explicit(sc, which, error).state == (ReloadState {
            notify: true,
            ..st.state
        }),
        which == ExplicitSlot::Reload ==> st.finish_explicit(sc, which, error).slots.rebuild == st.slots.rebuild,
        st.finish_explicit(sc, which, error).slots.normal == st.slots.normal,
{
    reveal(Stage::finish_explicit);
}

pub proof fn lemma_finish_normal(st: Stage, sc: ScopeView, error: Option<Seq<char>>)
    ensures
        st.finish_normal(sc, error).registry.operations.next == st.registry.operations.next,
        st.finish_normal(sc, error).state == st.state || st.finish_normal(sc, error).state == (ReloadState {
            notify: true,
            ..st.state
        }),
        st.finish_normal(sc, error).slots.rebuild == st.slots.rebuild,
        st.finish_normal(sc, error).slots.reload == st.slots.reload,
{
    reveal(Stage::finish_normal);
}

/// Once a rebuild that was asked for has been queued, none is asked for.
pub proof fn lemma_finished_shared(st: Stage, sc: ScopeView, failed: bool)
    requires
        st.has_room(),
    ensures
        st.finished_shared(sc, failed).has_room(),
        st.finished_shared(sc, failed).state.rebuilding_proc_macros == st.state.rebuilding_proc_macros,
        st.finished_shared(sc, failed).state.build_data_response == st.state.build_data_response,
{
    reveal(Stage::finished_shared);
    reveal(Stage::queued_rebuild);
    reveal(Stage::rebuild_begun);
    reveal(Stage::rebuild_prepared);
}

pub open spec fn text_view(error: Option<&str>) -> Option<Seq<char>> {
    match error {
        Some(error) => Some(error@),
        None => None,
    }
}

impl ReloadState {
    pub fn new(workspaces: u64) -> (r: Self)
        ensures
            !r.reload_workspace && !r.rebuild_proc_macros && !r.rebuild_queued && r.rebuilding_proc_macros is None
                && r.proc_macro_rebuild_id == 0 && r.rebuild_response_current is None,
            !r.build_data_response_current && !r.build_data_adoption && r.build_data_rebuild_id is None && !r.build_data_reload
                && r.build_data_generation == 0 && r.build_data_operation is None && r.build_data_response is None,
            r.proc_macro_operation is None && !r.reload_pending && !r.proc_macro_clients_failed && r.workspace_reload_id == 0
                && r.handled_workspace_reload is None && r.workspace_adoption is None && !r.build_deps_changed,
            r.workspaces == workspaces,
            r.fetch_workspaces_queue.idle() && r.fetch_build_data_queue.idle() && r.fetch_proc_macros_queue.idle(),
            r.clients == ClientsEffect::Keep && !r.notify && r.await_rebuild is None && !r.wants_to_switch,
    {
        ReloadState {
            reload_workspace: false,
            rebuild_proc_macros: false,
            rebuild_queued: false,
            rebuilding_proc_macros: None,
            proc_macro_rebuild_id: 0,
            rebuild_response_current: None,
            build_data_response_current: false,
            build_data_adoption: false,
            build_data_rebuild_id: None,
            build_data_reload: false,
            build_data_generation: 0,
            build_data_operation: None,
            proc_macro_operation: None,
            reload_pending: false,
            proc_macro_clients_failed: false,
            workspace_reload_id: 0,
            handled_workspace_reload: None,
            workspace_adoption: None,
            build_deps_changed: false,
            workspaces,
            build_data_response: None,
            fetch_workspaces_queue: OpQueue::new(),
            wants_to_switch: false,
            fetch_build_data_queue: OpQueue::new(),
            fetch_proc_macros_queue: OpQueue::new(),
            clients: ClientsEffect::Keep,
            notify: false,
            await_rebuild: None,
        }
    }

    /// What the last steps ask to be done with the list of macro servers, which is done with.
    pub fn take_clients(&mut self) -> (r: ClientsEffect)
        ensures
            r == old(self).clients,
            *final(self) == (ReloadState { clients: ClientsEffect::Keep, ..*old(self) }),
    {
        let r = self.clients;
        self.clients = ClientsEffect::Keep;
        r
    }

    pub fn take_wants_to_switch(&mut self) -> (r: bool)
        ensures
            r == old(self).wants_to_switch,
            *final(self) == (ReloadState { wants_to_switch: false, ..*old(self) }),
    {
        let r = self.wants_to_switch;
        self.wants_to_switch = false;
        r
    }

    pub fn take_notify(&mut self) -> (r: bool)
        ensures
            r == old(self).notify,
            *final(self) == (ReloadState { notify: false, ..*old(self) }),
    {
        let r = self.notify;
        self.notify = false;
        r
    }

    pub fn take_await_rebuild(&mut self) -> (r: Option<SharedAnalyzerOperationToken>)
        ensures
            r == old(self).await_rebuild,
            *final(self) == (ReloadState { await_rebuild: None, ..*old(self) }),
    {
        let r = self.await_rebuild;
        self.await_rebuild = None;
        r
    }
}

impl<'a> SessionScope<'a> {
    fn outcome(&self, error: Option<&str>) -> (r: OperationResult)
        ensures
            crate::operations::result_view(r) == Stage::outcome(self@, text_view(error)),
    {
        match error {
            None => Ok(copy_indexes(self.workspace_indexes)),
            Some(error) => Err(String::from_str(error)),
        }
    }

    /// Whether it is the session's turn and a workspace lacks its build data.
    pub fn build_data_pending(&self, slots: &OperationSlots, registry: &SharedAnalyzerRegistry) -> (r: bool)
        ensures
            forall|state: ReloadState| r == #[trigger] stage(state, *slots, registry@).builds_wait(self@),
    {
        proof {
            reveal(Stage::builds_wait);
        }
        slots.operation_ready(registry, self.key) && self.world.build_data_pending(self.workspace_indexes)
    }

    /// Whether it is the session's turn and a workspace can have its macros loaded.
    pub fn proc_macros_pending(&self, slots: &OperationSlots, registry: &SharedAnalyzerRegistry) -> (r: bool)
        ensures
            forall|state: ReloadState| r == #[trigger] stage(state, *slots, registry@).macros_wait(self@),
    {
        proof {
            reveal(Stage::macros_wait);
        }
        if !slots.operation_ready(registry, self.key) {
            return false;
        }
        let keys = slots.operation_keys(registry);
        match &keys {
            Some(keys) => self.world.proc_macros_pending(self.workspace_indexes, Some(keys), Some(self.config)),
            None => self.world.proc_macros_pending(self.workspace_indexes, None, Some(self.config)),
        }
    }
}

impl ReloadState {
    /// Ends the reload or the rebuild, if it is at the front.
    pub fn finish_explicit(
        &mut self,
        slots: &mut OperationSlots,
        registry: &mut SharedAnalyzerRegistry,
        scope: &SessionScope,
        which: ExplicitSlot,
        error: Option<&str>,
    ) -> (r: bool)
        requires
            old(registry)@.wf(),
        ensures
            final(registry)@.wf(),
            r == stage(*old(self), *old(slots), old(registry)@).can_finish(scope@, which),
            stage(*final(self), *final(slots), final(registry)@) == stage(*old(self), *old(slots), old(registry)@).finish_explicit(
                scope@,
                which,
                text_view(error),
            ),
    {
        proof {
            reveal(Stage::finish_explicit);
        }
        let done = slots.finish_explicit_operation(registry, scope.key, which, scope.outcome(error));
        if done && error.is_none() && which == ExplicitSlot::Reload {
            self.notify = true;
        }
        done
    }

    /// Ends the normal operation, if it is registered.
    pub fn finish_normal(
        &mut self,
        slots: &mut OperationSlots,
        registry: &mut SharedAnalyzerRegistry,
        scope: &SessionScope,
        error: Option<&str>,
    ) -> (r: bool)
        requires
            old(registry)@.wf(),
        ensures
            final(registry)@.wf(),
            r == stage(*old(self), *old(slots), old(registry)@).can_finish_normal(scope@),
            stage(*final(self), *final(slots), final(registry)@) == stage(*old(self), *old(slots), old(registry)@).finish_normal(
                scope@,
                text_view(error),
            ),
    {
        proof {
            reveal(Stage::finish_normal);
        }
        let done = slots.finish_normal_operation(registry, scope.key, scope.outcome(error));
        if done && error.is_none() {
            self.notify = true;
        }
        done
    }

    pub fn refresh_proc_macro_clients(&mut self, slots: &OperationSlots)
        ensures
            forall|registry: RegistryView|
                stage(*final(self), *slots, registry) == #[trigger] stage(*old(self), *slots, registry).refreshed(),
    {
        proof {
            reveal(Stage::refreshed);
        }
        if !self.reload_pending && !self.proc_macro_clients_failed && !slots.reload_registered() && !slots.rebuild_registered() {
            self.clients = ClientsEffect::Refresh;
        }
    }

    pub fn clear_stage_operations(&mut self)
        ensures
            *final(self) == (ReloadState { proc_macro_operation: None, build_data_operation: None, ..*old(self) }),
    {
        self.proc_macro_operation = None;
        self.build_data_operation = None;
    }

    /// Makes ready for a rebuild that was just queued.
    pub fn prepare_rebuild(&mut self, slots: &OperationSlots, registry: &SharedAnalyzerRegistry, scope: &SessionScope)
        ensures
            stage(*final(self), *slots, registry@) == stage(*old(self), *slots, registry@).rebuild_prepared(scope@),
    {
        proof {
            reveal(Stage::rebuild_prepared);
        }
        self.clients = ClientsEffect::Clear;
        self.rebuild_proc_macros = false;
        self.proc_macro_clients_failed = false;
        self.build_deps_changed = false;
        self.await_rebuild = slots.rebuild_operation_token(registry, scope.session_id);
    }

    /// Queues the rebuild that was asked for meanwhile.
    pub fn start_queued_rebuild(&mut self, slots: &mut OperationSlots, registry: &mut SharedAnalyzerRegistry, scope: &SessionScope)
        requires
            old(registry)@.wf(),
            stage(*old(self), *old(slots), old(registry)@).has_room(),
        ensures
            final(registry)@.wf(),
            stage(*final(self), *final(slots), final(registry)@) == stage(*old(self), *old(slots), old(registry)@).queued_rebuild(
                scope@,
            ),
    {
        proof {
            reveal(Stage::queued_rebuild);
            reveal(Stage::rebuild_begun);
        }
        if !self.rebuild_queued || slots.rebuild_registered() {
            return;
        }
        if slots.begin_rebuild(registry, scope.key) {
            self.rebuild_queued = false;
            self.prepare_rebuild(slots, registry, scope);
        }
    }

    /// Leaves a reload or rebuild behind.
    pub fn finish_shared_operation(
        &mut self,
        slots: &mut OperationSlots,
        registry: &mut SharedAnalyzerRegistry,
        scope: &SessionScope,
        failed: bool,
    )
        requires
            old(registry)@.wf(),
            stage(*old(self), *old(slots), old(registry)@).has_room(),
        ensures
            final(registry)@.wf(),
            stage(*final(self), *final(slots), final(registry)@) == stage(*old(self), *old(slots), old(registry)@).finished_shared(
                scope@,
                failed,
            ),
    {
        proof {
            reveal(Stage::finished_shared);
        }
        self.clear_stage_operations();
        self.reload_pending = false;
        self.proc_macro_clients_failed = failed;
        self.start_queued_rebuild(slots, registry, scope);
    }

    fn next_step(&self, slots: &OperationSlots, registry: &SharedAnalyzerRegistry, scope: &SessionScope) -> (r: ReloadStep)
        ensures
            r == stage(*self, *slots, registry@).next_step(scope@),
    {
        let ghost st = stage(*self, *slots, registry@);
        if self.fetch_build_data_queue.in_progress || self.fetch_build_data_queue.op_requested() {
            return ReloadStep::Wait;
        }
        let builds = scope.build_data_pending(slots, registry);
        proof {
            assert(builds == st.builds_wait(scope@));
        }
        if builds {
            return ReloadStep::FetchBuildData;
        }
        if self.fetch_proc_macros_queue.in_progress || self.fetch_proc_macros_queue.op_requested() {
            return ReloadStep::Wait;
        }
        let macros = scope.proc_macros_pending(slots, registry);
        proof {
            assert(macros == st.macros_wait(scope@));
        }
        if macros {
            ReloadStep::LoadMacros
        } else {
            ReloadStep::Finish
        }
    }

    pub fn ask_build_data(&mut self, cause: Cause)
        ensures
            *final(self) == old(self).asking_build_data(cause),
    {
        self.fetch_build_data_queue.request_op(cause);
    }

    pub fn ask_macros(&mut self, cause: Cause)
        ensures
            *final(self) == old(self).asking_macros(cause),
    {
        self.fetch_proc_macros_queue.request_op(cause);
    }

    /// Takes a reload to its next stage: build data where some is missing, then macros, then the end.
    #[verifier::rlimit(40)]
    pub fn advance_reload(&mut self, slots: &mut OperationSlots, registry: &mut SharedAnalyzerRegistry, scope: &SessionScope)
        requires
            old(registry)@.wf(),
            stage(*old(self), *old(slots), old(registry)@).has_room(),
        ensures
            final(registry)@.wf(),
            stage(*final(self), *final(slots), final(registry)@) == stage(*old(self), *old(slots), old(registry)@).advanced(scope@),
    {
        if !slots.reload_active(registry) {
            return;
        }
        self.reload_pending = true;
        let ghost st = stage(*self, *slots, registry@);
        match self.next_step(slots, registry, scope) {
            ReloadStep::Wait => {},
            ReloadStep::FetchBuildData => self.ask_build_data(Cause::WorkspaceReload),
            ReloadStep::LoadMacros => self.ask_macros(Cause::WorkspaceReload),
            ReloadStep::Finish => {
                proof {
                    lemma_finish_explicit(st, scope@, ExplicitSlot::Reload, None);
                }
                if self.finish_explicit(slots, registry, scope, ExplicitSlot::Reload, None) {
                    self.finish_shared_operation(slots, registry, scope, false);
                }
            },
        }
    }
}

} // verus!
