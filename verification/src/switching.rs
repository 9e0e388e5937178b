//! How a session goes over to workspaces that have come in.
use crate::build_update::WorldUpdate;
use crate::build_update::WorldUpdateView;
use crate::keys::{BackendKeyView, SharedAnalyzerBackendKey};
use crate::registry::{RegistryView, SharedAnalyzerRegistry};
use crate::reload_state::{
    lemma_finish_explicit, lemma_finish_normal, stage, Cause, ClientsEffect, ReloadState, ScopeView, SessionScope,
    Stage,
};
use crate::slots::{
    cancelled, handed, normal_failed, open_slot, operation_scope_matches, ExplicitSlot, OperationSlots,
};
use crate::tokens::same;
use vstd::prelude::*;

verus! {

/// Workspaces as they came in: for which reload, whether the crates must be seen to anew, whether
/// the session may take them over as they are, which of them loaded, and the number of the list.
#[derive(Debug)]
pub struct WorkspaceResponse {
    pub reload_id: Option<u64>,
    pub force_crate_graph_reload: bool,
    pub adopted: bool,
    pub loaded: Vec<bool>,
    pub workspaces: u64,
}

impl WorkspaceResponse {
    pub open spec fn all_loaded(self) -> bool {
        forall|i: int| 0 <= i < self.loaded@.len() ==> #[trigger] self.loaded@[i]
    }

    fn is_loaded(&self) -> (r: bool)
        ensures
            r == self.all_loaded(),
    {
        let mut i: usize = 0;
        while i < self.loaded.len()
            invariant
                i <= self.loaded.len(),
                forall|j: int| 0 <= j < i ==> #[trigger] self.loaded@[j],
            decreases self.loaded.len() - i,
        {
            if !self.loaded[i] {
                return false;
            }
            i = i + 1;
        }
        true
    }
}

/// What a session left behind for another one.
#[derive(Clone, Copy, Debug, PartialEq, Eq, Structural)]
pub struct Handover {
    /// The other session is another one: the first is to retire, and updates are to be listened for.
    pub session_changed: bool,
    /// The other session queues under another key.
    pub scope_changed: bool,
}

pub open spec fn no_slots() -> OperationSlots {
    OperationSlots { reload: None, next_reload: None, rebuild: None, normal: None }
}

/// Two sessions are one: they are in one world and have one number.
pub open spec fn same_session(a: u64, key: BackendKeyView, b: u64, other: BackendKeyView) -> bool {
    a == b && key.shared_world == other.shared_world
}

/// The registry once everything in some slots was given up.
pub open spec fn all_cancelled(s: RegistryView, key: BackendKeyView, slots: OperationSlots, reason: Seq<char>) -> RegistryView {
    let s = cancelled(s, key, slots.reload, reason);
    let s = cancelled(s, key, slots.next_reload, reason);
    let s = cancelled(s, key, slots.rebuild, reason);
    normal_failed(s, key, slots.normal, reason)
}

pub open spec fn slots_handed(ops: crate::operations::OperationsView, from: OperationSlots, to: OperationSlots) -> OperationSlots {
    OperationSlots {
        reload: handed(ops, from.reload, to.reload),
        next_reload: handed(ops, from.next_reload, to.next_reload),
        rebuild: handed(ops, from.rebuild, to.rebuild),
        normal: handed(ops, from.normal, to.normal),
    }
}

/// No operation that is handed over finds its slot taken.
pub open spec fn can_hand_over(ops: crate::operations::OperationsView, from: OperationSlots, to: OperationSlots) -> bool {
    &&& open_slot(ops, from.reload) ==> to.reload is None
    &&& open_slot(ops, from.next_reload) ==> to.next_reload is None
    &&& open_slot(ops, from.rebuild) ==> to.rebuild is None
    &&& open_slot(ops, from.normal) ==> to.normal is None
}

/// Hands a session's operations to the session that takes its place, if they queue under one key;
/// else gives them up. The slots that result are those of the session that goes on.
pub fn hand_over(
    slots: &mut OperationSlots,
    next_slots: OperationSlots,
    registry: &mut SharedAnalyzerRegistry,
    session_id: u64,
    key: &SharedAnalyzerBackendKey,
    next_id: u64,
    next_key: &SharedAnalyzerBackendKey,
) -> (r: Handover)
    requires
        old(registry)@.wf(),
        key@ == next_key@ && !same_session(session_id, key@, next_id, next_key@) ==> can_hand_over(
            old(registry)@.operations,
            *old(slots),
            next_slots,
        ),
    ensures
        final(registry)@.wf(),
        r == (Handover {
            session_changed: !same_session(session_id, key@, next_id, next_key@),
            scope_changed: key@ != next_key@,
        }),
        final(registry)@ == (if r.scope_changed {
            all_cancelled(old(registry)@, key@, *old(slots), "shared analyzer backend key changed"@)
        } else {
            old(registry)@
        }),
        *final(slots) == (if r.scope_changed {
            if r.session_changed {
                next_slots
            } else {
                no_slots()
            }
        } else if r.session_changed {
            slots_handed(old(registry)@.operations, *old(slots), next_slots)
        } else {
            *old(slots)
        }),
{
    let session_changed = !(session_id == next_id && same(&key.shared_world, &next_key.shared_world));
    let scope_changed = !operation_scope_matches(key, next_key);
    if scope_changed {
        slots.cancel_operations(registry, key, &String::from_str("shared analyzer backend key changed"));
        if session_changed {
            *slots = next_slots;
        }
    } else if session_changed {
        let mut target = next_slots;
        slots.transfer_operations(&mut target, registry);
        *slots = target;
    }
    Handover { session_changed, scope_changed }
}

impl ReloadState {
    /// A session that now queues under another key forgets what it had under way. A rebuild is
    /// asked for again.
    pub open spec fn scope_left(self, rebuild_registered: bool) -> ReloadState {
        ReloadState {
            rebuild_queued: self.rebuild_queued || self.rebuilding_proc_macros is Some || self.rebuild_proc_macros
                || rebuild_registered,
            rebuilding_proc_macros: None,
            rebuild_proc_macros: false,
            build_data_rebuild_id: None,
            build_data_operation: None,
            proc_macro_operation: None,
            rebuild_response_current: None,
            reload_pending: false,
            ..self
        }
    }

    /// What the session makes of a response, once it has gone over to the session that it came
    /// with.
    pub open spec fn response_taken(self, response: WorkspaceResponse, reload_active: bool) -> ReloadState {
        let adopting = ReloadState {
            workspace_adoption: if response.adopted && !self.build_data_adoption && response.all_loaded() {
                Some(response.workspaces)
            } else {
                None
            },
            ..self
        };
        if response.reload_id is Some && self.handled_workspace_reload != response.reload_id {
            ReloadState {
                handled_workspace_reload: response.reload_id,
                reload_pending: response.all_loaded() && reload_active,
                proc_macro_clients_failed: !response.all_loaded(),
                clients: ClientsEffect::Clear,
                ..adopting
            }
        } else if response.reload_id is None && response.all_loaded() {
            ReloadState { proc_macro_clients_failed: false, ..adopting }
        } else {
            adopting
        }
    }

    /// The response answers a reload that was not dealt with yet.
    pub open spec fn answers_reload(self, response: WorkspaceResponse) -> bool {
        response.reload_id is Some && self.handled_workspace_reload != response.reload_id
    }

    /// Whether a response answers a reload that was not dealt with yet.
    pub fn is_reload_response(&self, response: &WorkspaceResponse) -> (r: bool)
        ensures
            r == self.answers_reload(*response),
    {
        match (response.reload_id, self.handled_workspace_reload) {
            (Some(id), Some(handled)) => id != handled,
            (Some(_), None) => true,
            _ => false,
        }
    }

    fn leave_scope(&mut self, rebuild_registered: bool)
        ensures
            *final(self) == old(self).scope_left(rebuild_registered),
    {
        if self.rebuilding_proc_macros.is_some() || self.rebuild_proc_macros || rebuild_registered {
            self.rebuild_queued = true;
        }
        self.rebuilding_proc_macros = None;
        self.rebuild_proc_macros = false;
        self.build_data_rebuild_id = None;
        self.build_data_operation = None;
        self.proc_macro_operation = None;
        self.rebuild_response_current = None;
        self.reload_pending = false;
    }

    #[verifier::rlimit(40)]
    fn take_response(&mut self, response: &WorkspaceResponse, reload_active: bool)
        ensures
            *final(self) == old(self).response_taken(*response, reload_active),
    {
        let reload_response = self.is_reload_response(response);
        let loaded = response.is_loaded();
        self.workspace_adoption = if response.adopted && !self.build_data_adoption && loaded {
            Some(response.workspaces)
        } else {
            None
        };
        if reload_response {
            self.handled_workspace_reload = response.reload_id;
            self.reload_pending = loaded && reload_active;
            self.proc_macro_clients_failed = !loaded;
            self.clients = ClientsEffect::Clear;
        } else if response.reload_id.is_none() && loaded {
            self.proc_macro_clients_failed = false;
        }
    }

    /// Goes over to the session that a response came with.
    pub fn take_session(
        &mut self,
        slots: &mut OperationSlots,
        next_slots: OperationSlots,
        registry: &mut SharedAnalyzerRegistry,
        session_id: u64,
        key: &SharedAnalyzerBackendKey,
        next_id: u64,
        next_key: &SharedAnalyzerBackendKey,
        response: &WorkspaceResponse,
    ) -> (r: Handover)
        requires
            old(registry)@.wf(),
            key@ == next_key@ && !same_session(session_id, key@, next_id, next_key@) ==> can_hand_over(
                old(registry)@.operations,
                *old(slots),
                next_slots,
            ),
        ensures
            final(registry)@.wf(),
            r == (Handover {
                session_changed: !same_session(session_id, key@, next_id, next_key@),
                scope_changed: key@ != next_key@,
            }),
            final(registry)@ == (if r.scope_changed {
                all_cancelled(old(registry)@, key@, *old(slots), "shared analyzer backend key changed"@)
            } else {
                old(registry)@
            }),
            *final(slots) == (if r.scope_changed {
                if r.session_changed {
                    next_slots
                } else {
                    no_slots()
                }
            } else if r.session_changed {
                slots_handed(old(registry)@.operations, *old(slots), next_slots)
            } else {
                *old(slots)
            }),
            *final(self) == (if r.scope_changed {
                old(self).scope_left(old(slots).rebuild is Some)
            } else {
                *old(self)
            }).response_taken(*response, stage(*old(self), *final(slots), final(registry)@).reload_active()),
    {
        let rebuild_registered = slots.rebuild_registered();
        let handover = hand_over(slots, next_slots, registry, session_id, key, next_id, next_key);
        if handover.scope_changed {
            self.leave_scope(rebuild_registered);
        }
        let active = slots.reload_active(registry);
        self.take_response(response, active);
        handover
    }
}

impl Stage {
    /// The build data that came in is for the operation under way and for the workspaces in use.
    pub open spec fn response_current(self, sc: ScopeView) -> bool {
        &&& self.state.build_data_operation matches Some(token) && self.slots.matches(
            self.registry.operations,
            sc.session_id,
            token,
        )
        &&& self.state.build_data_response matches Some(response) && response.workspaces == self.state.workspaces
    }

    pub open spec fn currency_noted(self, sc: ScopeView) -> Stage {
        let current = self.response_current(sc);
        self.with(
            ReloadState {
                build_data_response_current: current,
                rebuild_response_current: if self.state.rebuilding_proc_macros is Some && current
                    && self.state.build_data_response->0.rebuild_id == self.state.rebuilding_proc_macros {
                    self.state.rebuilding_proc_macros
                } else {
                    None
                },
                ..self.state
            },
        )
    }

    /// Build data that is not of use any more is dropped.
    #[verifier::opaque]
    pub open spec fn stale_dropped(self, sc: ScopeView, expand: bool) -> Stage {
        if self.state.build_data_response is Some && !self.state.build_data_response_current && !self.state.build_data_adoption {
            let after = self.stale_answered(sc, expand);
            after.with(ReloadState { build_data_response: None, ..after.state })
        } else {
            self
        }
    }

    /// A rebuild whose build data is of no use is begun anew.
    pub open spec fn stale_answered(self, sc: ScopeView, expand: bool) -> Stage {
        if self.state.rebuilding_proc_macros is Some {
            self.clients_set(sc, false, expand, WorldUpdateView::Stale)
        } else {
            self
        }
    }

    /// The session before it puts the new workspaces to use.
    pub open spec fn switch_begun(self, sc: ScopeView, reload_response: bool, expand: bool) -> Stage {
        let after = self.currency_noted(sc).stale_dropped(sc, expand);
        if reload_response {
            after
        } else {
            after.refreshed()
        }
    }

    pub open spec fn switch_over(self) -> Stage {
        self.with(
            ReloadState {
                rebuild_response_current: None,
                build_data_response_current: false,
                build_data_adoption: false,
                ..self.state
            },
        )
    }

    pub open spec fn adoption_asked(self) -> Stage {
        if self.state.workspace_adoption is Some && self.state.fetch_build_data_queue.idle() {
            self.with(self.state.asking_build_data(Cause::WorkspaceUpdated))
        } else {
            self
        }
    }

    /// Build data under way that did not come in for these workspaces is fetched anew.
    #[verifier::opaque]
    pub open spec fn stale_build_retried(self, sc: ScopeView) -> Stage {
        if !self.state.build_data_response_current && (self.state.build_data_operation matches Some(token)
            && self.slots.matches(self.registry.operations, sc.session_id, token)) && self.state.rebuilding_proc_macros is None {
            let after = self.finish_normal(sc, Some("shared build-data result became stale"@));
            if self.can_finish_normal(sc) {
                after.with(
                    ReloadState { build_data_operation: None, ..after.state }.asking_build_data(Cause::BuildDataStale),
                )
            } else {
                after
            }
        } else {
            self
        }
    }

    /// The session once it has put the new workspaces to use.
    pub open spec fn switch_finished(self, sc: ScopeView, reload_error: Option<Seq<char>>, scope_changed: bool, expand: bool) -> Stage {
        let asked = self.adoption_asked();
        if reload_error is Some {
            asked.reload_ended(sc, reload_error).switch_over()
        } else {
            let advanced = asked.stale_answered(sc, expand).stale_build_retried(sc).switch_over().advanced(sc);
            if scope_changed {
                advanced.queued_rebuild(sc)
            } else {
                advanced
            }
        }
    }
}

proof fn lemma_stale_dropped(st: Stage, sc: ScopeView, expand: bool, after: Stage)
    requires
        after == st.stale_answered(sc, expand),
        st.state.build_data_response is Some && !st.state.build_data_response_current && !st.state.build_data_adoption,
    ensures
        st.stale_dropped(sc, expand) == after.with(ReloadState { build_data_response: None, ..after.state }),
{
    reveal(Stage::stale_dropped);
}

/// What is asked for under a key needs no number once it is queued.
proof fn lemma_number_left(st: Stage, sc: ScopeView, expand: bool)
    requires
        st.has_number(),
    ensures
        st.stale_answered(sc, expand).has_number(),
{
    reveal(Stage::clients_set);
    reveal(Stage::rebuild_answered);
    reveal(Stage::refreshed);
}

proof fn lemma_advanced_room(st: Stage, sc: ScopeView)
    requires
        st.has_room(),
    ensures
        st.advanced(sc).has_room(),
{
    let pending = st.with(ReloadState { reload_pending: true, ..st.state });
    lemma_finish_explicit(pending, sc, ExplicitSlot::Reload, None);
    crate::reload_state::lemma_finished_shared(pending.finish_explicit(sc, ExplicitSlot::Reload, None), sc, false);
}

impl ReloadState {
    fn operation_current(
        token: Option<crate::operations::SharedAnalyzerOperationToken>,
        slots: &OperationSlots,
        registry: &SharedAnalyzerRegistry,
        scope: &SessionScope,
    ) -> (r: bool)
        ensures
            r == (token matches Some(t) && slots.matches(registry@.operations, scope.session_id, t)),
    {
        match token {
            Some(token) => slots.operation_token_matches(registry, scope.session_id, token),
            None => false,
        }
    }

    fn note_currency(&mut self, slots: &OperationSlots, registry: &SharedAnalyzerRegistry, scope: &SessionScope)
        ensures
            stage(*final(self), *slots, registry@) == stage(*old(self), *slots, registry@).currency_noted(scope@),
    {
        let operation = Self::operation_current(self.build_data_operation, slots, registry, scope);
        let (answers, asked) = match self.build_data_response {
            Some(response) => (response.workspaces == self.workspaces, response.rebuild_id),
            None => (false, None),
        };
        let current = operation && answers;
        self.build_data_response_current = current;
        self.rebuild_response_current = match (self.rebuilding_proc_macros, asked) {
            (Some(id), Some(asked)) => if current && id == asked {
                Some(id)
            } else {
                None
            },
            _ => None,
        };
    }

    fn drop_build_data(&mut self)
        ensures
            *final(self) == (ReloadState { build_data_response: None, ..*old(self) }),
    {
        self.build_data_response = None;
    }

    fn drop_stale(&mut self, slots: &mut OperationSlots, registry: &mut SharedAnalyzerRegistry, scope: &SessionScope, expand: bool)
        requires
            old(registry)@.wf(),
            stage(*old(self), *old(slots), old(registry)@).has_number(),
        ensures
            final(registry)@.wf(),
            stage(*final(self), *final(slots), final(registry)@) == stage(*old(self), *old(slots), old(registry)@).stale_dropped(
                scope@,
                expand,
            ),
    {
        let ghost st = stage(*self, *slots, registry@);
        if self.build_data_response.is_none() || self.build_data_response_current || self.build_data_adoption {
            proof {
                reveal(Stage::stale_dropped);
            }
            return;
        }
        self.answer_stale(slots, registry, scope, expand);
        let ghost after = stage(*self, *slots, registry@);
        self.drop_build_data();
        proof {
            lemma_stale_dropped(st, scope@, expand, after);
        }
    }

    fn answer_stale(&mut self, slots: &mut OperationSlots, registry: &mut SharedAnalyzerRegistry, scope: &SessionScope, expand: bool)
        requires
            old(registry)@.wf(),
            stage(*old(self), *old(slots), old(registry)@).has_number(),
        ensures
            final(registry)@.wf(),
            stage(*final(self), *final(slots), final(registry)@) == stage(*old(self), *old(slots), old(registry)@).stale_answered(
                scope@,
                expand,
            ),
    {
        if self.rebuilding_proc_macros.is_some() {
            self.set_proc_macro_clients(slots, registry, scope, false, expand, &WorldUpdate::Stale);
        }
    }

    /// Makes ready to put the new workspaces to use.
    pub fn begin_switch(
        &mut self,
        slots: &mut OperationSlots,
        registry: &mut SharedAnalyzerRegistry,
        scope: &SessionScope,
        reload_response: bool,
        expand_proc_macros: bool,
    )
        requires
            old(registry)@.wf(),
            stage(*old(self), *old(slots), old(registry)@).has_number(),
        ensures
            final(registry)@.wf(),
            stage(*final(self), *final(slots), final(registry)@) == stage(*old(self), *old(slots), old(registry)@).switch_begun(
                scope@,
                reload_response,
                expand_proc_macros,
            ),
    {
        self.note_currency(slots, registry, scope);
        self.drop_stale(slots, registry, scope, expand_proc_macros);
        if !reload_response {
            self.refresh_proc_macro_clients(slots);
        }
    }

    fn retry_stale_build(&mut self, slots: &mut OperationSlots, registry: &mut SharedAnalyzerRegistry, scope: &SessionScope)
        requires
            old(registry)@.wf(),
        ensures
            final(registry)@.wf(),
            stage(*final(self), *final(slots), final(registry)@) == stage(*old(self), *old(slots), old(registry)@).stale_build_retried(
                scope@,
            ),
    {
        proof {
            reveal(Stage::stale_build_retried);
        }
        let current = Self::operation_current(self.build_data_operation, slots, registry, scope);
        if !self.build_data_response_current && current && self.rebuilding_proc_macros.is_none() {
            if self.finish_normal(slots, registry, scope, Some("shared build-data result became stale")) {
                self.build_data_operation = None;
                self.ask_build_data(Cause::BuildDataStale);
            }
        }
    }

    fn end_switch(&mut self)
        ensures
            *final(self) == (ReloadState {
                rebuild_response_current: None,
                build_data_response_current: false,
                build_data_adoption: false,
                ..*old(self)
            }),
    {
        self.rebuild_response_current = None;
        self.build_data_response_current = false;
        self.build_data_adoption = false;
    }

    fn ask_adoption(&mut self)
        ensures
            forall|slots: OperationSlots, registry: RegistryView|
                stage(*final(self), slots, registry) == #[trigger] stage(*old(self), slots, registry).adoption_asked(),
    {
        if self.workspace_adoption.is_some() && !self.fetch_build_data_queue.op_requested()
            && !self.fetch_build_data_queue.in_progress {
            self.ask_build_data(Cause::WorkspaceUpdated);
        }
    }

    /// Goes on once the new workspaces are in use: a reload that failed ends, and any other goes to
    /// its next stage.
    pub fn finish_switch(
        &mut self,
        slots: &mut OperationSlots,
        registry: &mut SharedAnalyzerRegistry,
        scope: &SessionScope,
        reload_error: Option<&str>,
        scope_changed: bool,
        expand_proc_macros: bool,
    )
        requires
            old(registry)@.wf(),
            stage(*old(self), *old(slots), old(registry)@).has_number(),
        ensures
            final(registry)@.wf(),
            stage(*final(self), *final(slots), final(registry)@) == stage(*old(self), *old(slots), old(registry)@).switch_finished(
                scope@,
                crate::reload_state::text_view(reload_error),
                scope_changed,
                expand_proc_macros,
            ),
    {
        self.ask_adoption();
        let ghost asked = stage(*self, *slots, registry@);
        if reload_error.is_some() {
            self.end_reload(slots, registry, scope, reload_error);
            self.end_switch();
            return;
        }
        proof {
            lemma_number_left(asked, scope@, expand_proc_macros);
        }
        self.answer_stale(slots, registry, scope, expand_proc_macros);
        proof {
            let cleared = stage(*self, *slots, registry@);
            lemma_finish_normal(cleared, scope@, Some("shared build-data result became stale"@));
            reveal(Stage::stale_build_retried);
        }
        self.retry_stale_build(slots, registry, scope);
        self.end_switch();
        let ghost over = stage(*self, *slots, registry@);
        proof {
            assert(over.has_room());
            lemma_advanced_room(over, scope@);
        }
        self.advance_reload(slots, registry, scope);
        if scope_changed {
            self.start_queued_rebuild(slots, registry, scope);
        }
    }

    /// Asks for the macros of new crates, if there are any to load and none are being loaded.
    pub fn recreate_crate_graph(
        &mut self,
        slots: &OperationSlots,
        registry: &SharedAnalyzerRegistry,
        scope: &SessionScope,
        initial_build: bool,
        expand_proc_macros: bool,
    )
        ensures
            *final(self) == (if !initial_build && expand_proc_macros && stage(*old(self), *slots, registry@).macros_wait(scope@)
                && !old(self).fetch_proc_macros_queue.in_progress {
                old(self).asking_macros(Cause::Given)
            } else {
                *old(self)
            }),
    {
        let ghost st = stage(*self, *slots, registry@);
        if !initial_build && expand_proc_macros {
            let waiting = scope.proc_macros_pending(slots, registry);
            proof {
                assert(waiting == st.macros_wait(scope@));
            }
            if waiting && !self.fetch_proc_macros_queue.in_progress {
                self.ask_macros(Cause::Given);
            }
        }
    }
}

/// A rebuild that was under way or asked for when the session came to queue under another key is
/// not lost: it is queued under the new key once the switch is over.
pub proof fn law_rebuild_survives_another_key(state: ReloadState, registered: bool, response: WorkspaceResponse, active: bool)
    requires
        state.rebuild_queued || state.rebuilding_proc_macros is Some || state.rebuild_proc_macros || registered,
    ensures
        state.scope_left(registered).response_taken(response, active).rebuild_queued,
        forall|st: Stage, sc: ScopeView|
            st.state.rebuild_queued ==> (#[trigger] st.queued_rebuild(sc)).slots.rebuild is Some,
{
    reveal(Stage::queued_rebuild);
    reveal(Stage::rebuild_begun);
    reveal(Stage::rebuild_prepared);
}

/// Operations that are under way go over to the session that takes over: each takes its slot there. The
/// slots of operations that are over stay as they were there, and nothing is handed over into a slot
/// that is taken.
pub proof fn law_open_operations_are_handed_over(
    ops: crate::operations::OperationsView,
    from: OperationSlots,
    to: OperationSlots,
    id: u64,
)
    requires
        ops.records.contains_key(id),
        ops.records[id].result is None,
    ensures
        from.reload == Some(id) ==> slots_handed(ops, from, to).reload == Some(id) && (can_hand_over(ops, from, to)
            ==> to.reload is None),
        from.next_reload == Some(id) ==> slots_handed(ops, from, to).next_reload == Some(id) && (can_hand_over(ops, from, to)
            ==> to.next_reload is None),
        from.rebuild == Some(id) ==> slots_handed(ops, from, to).rebuild == Some(id) && (can_hand_over(ops, from, to)
            ==> to.rebuild is None),
        from.normal == Some(id) ==> slots_handed(ops, from, to).normal == Some(id) && (can_hand_over(ops, from, to)
            ==> to.normal is None),
        slots_handed(ops, no_slots(), to) == to,
        can_hand_over(ops, no_slots(), to),
        can_hand_over(ops, from, no_slots()),
{
}

/// An operation that is over is not handed over.
pub proof fn law_ended_operations_stay_behind(ops: crate::operations::OperationsView, from: OperationSlots, to: OperationSlots)
    ensures
        from.reload is None || ops.finished(from.reload->0) ==> slots_handed(ops, from, to).reload == to.reload,
        from.next_reload is None || ops.finished(from.next_reload->0) ==> slots_handed(ops, from, to).next_reload == to.next_reload,
        from.rebuild is None || ops.finished(from.rebuild->0) ==> slots_handed(ops, from, to).rebuild == to.rebuild,
        from.normal is None || ops.finished(from.normal->0) ==> slots_handed(ops, from, to).normal == to.normal,
{
}

} // verus!
