//! How sessions take turns at reloading and rebuilding, stated on queues, records and states.
use crate::build_update::{BuildDataUse, WorldUpdateView};
use crate::keys::{BackendKeyView, WorldKeyView};
use crate::macro_users::law_macros_are_loaded_for_all_users;
use crate::operations::{OperationWait, OperationsView, ResultView, SharedAnalyzerOperationToken};
use crate::reload::world_changed;
use crate::reload_state::{Cause, ClientsEffect, ReloadState, ScopeView, Stage};
use crate::slots::{CommitGate, ExplicitSlot, OperationSlots};
use crate::spawn::spawn_key;
use crate::switching::WorkspaceResponse;
use vstd::prelude::*;

verus! {

/// An operation is over exactly when it has no record any more or its record holds a result.
pub proof fn law_operations_end_with_a_result(ops: OperationsView, id: u64)
    ensures
        !ops.finished(id) <==> ops.records.contains_key(id) && ops.records[id].result is None,
{
}

/// An operation that is queued comes last in its world's queue. It is open, its turn has not come, and it
/// waits for the loads that it was given and for the normal operations registered in the world so far.
/// Other queues and records stay as they are.
pub proof fn law_queued_operation_comes_last(ops: OperationsView, key: BackendKeyView, loads: Seq<u64>, world: WorldKeyView, id: u64)
    requires
        ops.wf(),
        ops.next < u64::MAX,
        id != ops.next,
    ensures
        ({
            let r = ops.enqueued(key, loads);
            let own = key.shared_world;
            &&& r.queue(own).len() == ops.queue(own).len() + 1
            &&& r.queue(own)[ops.queue(own).len() as int] == (key, ops.next)
            &&& forall|i: int| 0 <= i < ops.queue(own).len() ==> #[trigger] r.queue(own)[i] == ops.queue(own)[i]
            &&& r.records.contains_key(ops.next)
            &&& r.records[ops.next].pending_loads == loads && r.records[ops.next].pending_normal == ops.normal(own)
            &&& r.records[ops.next].result is None && !r.records[ops.next].turn_ready && r.records[ops.next].generation == 0
            &&& world != own ==> r.queue(world) == ops.queue(world)
            &&& r.normal(world) == ops.normal(world)
            &&& r.records.contains_key(id) == ops.records.contains_key(id)
            &&& ops.records.contains_key(id) ==> r.records[id] == ops.records[id]
            &&& r.next == ops.next + 1
        }),
{
}

/// A normal operation that begins is registered in its world and open, and waits for nothing itself. The
/// queues stay as they are.
pub proof fn law_normal_operation_is_registered(ops: OperationsView, own: WorldKeyView, world: WorldKeyView, id: u64)
    requires
        ops.wf(),
        ops.next < u64::MAX,
        id != ops.next,
    ensures
        ({
            let r = ops.normal_begun(own);
            &&& r.normal(own) == ops.normal(own).push(ops.next)
            &&& r.records.contains_key(ops.next) && r.records[ops.next].result is None
            &&& r.records[ops.next].pending_loads.len() == 0 && r.records[ops.next].pending_normal.len() == 0
            &&& world != own ==> r.normal(world) == ops.normal(world)
            &&& r.queue(world) == ops.queue(world)
            &&& r.records.contains_key(id) == ops.records.contains_key(id)
            &&& ops.records.contains_key(id) ==> r.records[id] == ops.records[id]
            &&& r.next == ops.next + 1
        }),
{
}

proof fn lemma_first_open(ops: OperationsView, ids: Seq<u64>)
    ensures
        match ops.first_open(ids) {
            None => forall|i: int| 0 <= i < ids.len() ==> ops.finished(#[trigger] ids[i]),
            Some(id) => exists|i: int|
                0 <= i < ids.len() && #[trigger] ids[i] == id && !ops.finished(id) && forall|j: int|
                    0 <= j < i ==> ops.finished(#[trigger] ids[j]),
        },
    decreases ids.len(),
{
    if ids.len() > 0 {
        let rest = ids.drop_first();
        if !ops.finished(ids[0]) {
            assert(ids[0] == ops.first_open(ids)->0);
        } else {
            lemma_first_open(ops, rest);
            match ops.first_open(ids) {
                None => {
                    assert forall|i: int| 0 <= i < ids.len() implies ops.finished(#[trigger] ids[i]) by {
                        if i > 0 {
                            assert(rest[i - 1] == ids[i]);
                        }
                    }
                },
                Some(id) => {
                    let i = choose|i: int|
                        0 <= i < rest.len() && #[trigger] rest[i] == id && !ops.finished(id) && forall|j: int|
                            0 <= j < i ==> ops.finished(#[trigger] rest[j]);
                    assert(ids[i + 1] == id);
                    assert forall|j: int| 0 <= j < i + 1 implies ops.finished(#[trigger] ids[j]) by {
                        if j > 0 {
                            assert(rest[j - 1] == ids[j]);
                        }
                    }
                },
            }
        }
    }
}

/// The turn of a queued operation has come exactly when it is first in its world's queue and every normal
/// operation that it waits for is over. Until then it waits for the first of these that is open, and then
/// for the operation that is first in the queue.
pub proof fn law_turn_comes_at_the_front(ops: OperationsView, world: WorldKeyView, id: u64)
    ensures
        ({
            let waits = ops.records[id].pending_normal;
            let all_over = forall|i: int| 0 <= i < waits.len() ==> ops.finished(#[trigger] waits[i]);
            let queue = ops.queue(world);
            &&& ops.queue_wait(world, id) == OperationWait::Ready <==> all_over && queue.len() > 0 && queue[0].1 == id
            &&& ops.queue_wait(world, id) matches OperationWait::Operation(other) ==> {
                ||| exists|i: int|
                    0 <= i < waits.len() && #[trigger] waits[i] == other && !ops.finished(other) && forall|j: int|
                        0 <= j < i ==> ops.finished(#[trigger] waits[j])
                ||| all_over && queue.len() > 0 && queue[0].1 == other && other != id
            }
            &&& ops.queue_wait(world, id) == OperationWait::Unregistered ==> forall|i: int|
                0 <= i < queue.len() ==> (#[trigger] queue[i]).1 != id
        }),
{
    lemma_first_open(ops, ops.records[id].pending_normal);
}

/// A normal operation may run exactly when nothing is queued in its world, or what is first in the queue
/// waits for it.
pub proof fn law_normal_operation_runs_before_the_queue(ops: OperationsView, world: WorldKeyView, id: u64)
    ensures
        ops.normal_ready(world, id) <==> ops.queue(world).len() == 0 || (ops.records.contains_key(ops.queue(world)[0].1)
            && exists|i: int|
            0 <= i < ops.records[ops.queue(world)[0].1].pending_normal.len()
                && #[trigger] ops.records[ops.queue(world)[0].1].pending_normal[i] == id),
{
    if ops.queue(world).len() > 0 && ops.records.contains_key(ops.queue(world)[0].1) {
        let waits = ops.records[ops.queue(world)[0].1].pending_normal;
        if waits.contains(id) {
            let i = waits.index_of(id);
            assert(waits[i] == id);
        }
    }
}

/// A session may go on exactly when the operation that is first in its world's queue is its own reload or
/// rebuild, or waits for its normal operation. Where nothing is queued, it may if it has no reload or
/// rebuild.
pub proof fn law_session_goes_on_in_turn(slots: OperationSlots, ops: OperationsView, key: BackendKeyView)
    ensures
        ({
            let queue = ops.queue(key.shared_world);
            slots.ready(ops, key) <==> if queue.len() == 0 {
                slots.reload is None && slots.rebuild is None
            } else {
                let first = queue[0].1;
                slots.reload == Some(first) || slots.rebuild == Some(first) || (slots.normal matches Some(own)
                    && ops.records.contains_key(first) && ops.records[first].pending_normal.contains(own))
            }
        }),
{
}

/// A session works on its normal operation if it has one, else on its reload if the turn of that has come,
/// and else on its rebuild if the turn of that has come. A token stands for that operation in its present
/// generation, as long as it is not over.
pub proof fn law_token_stands_for_present_work(
    slots: OperationSlots,
    ops: OperationsView,
    session_id: u64,
    token: SharedAnalyzerOperationToken,
)
    ensures
        ({
            let reload = slots.reload matches Some(id) && ops.records.contains_key(id) && ops.records[id].turn_ready;
            let rebuild = slots.rebuild matches Some(id) && ops.records.contains_key(id) && ops.records[id].turn_ready;
            let work = if slots.normal is Some {
                slots.normal
            } else if reload {
                slots.reload
            } else if rebuild {
                slots.rebuild
            } else {
                None
            };
            &&& slots.current(ops) == work
            &&& work matches Some(id) ==> (slots.matches(ops, session_id, token) <==> token.operation == Some(id)
                && ops.records.contains_key(id) && ops.records[id].result is None && token.generation == ops.records[id].generation)
            &&& work is None ==> (slots.matches(ops, session_id, token) <==> token.operation is None && token.session_id
                == session_id)
        }),
{
}

/// Work may be committed exactly when its token stands for what the session works on and, where the session
/// has a reload or a rebuild and no normal operation, one of these is first in its world's queue under the
/// session's key.
pub proof fn law_work_is_committed_in_turn(
    slots: OperationSlots,
    ops: OperationsView,
    key: BackendKeyView,
    session_id: u64,
    token: SharedAnalyzerOperationToken,
)
    ensures
        slots.gate(ops, key, session_id, token) == CommitGate::Commit <==> slots.matches(ops, session_id, token) && {
            ||| slots.normal is Some
            ||| slots.reload is None && slots.rebuild is None
            ||| ops.queue(key.shared_world).len() > 0 && ops.queue(key.shared_world)[0].0 == key && (slots.reload == Some(
                ops.queue(key.shared_world)[0].1,
            ) || slots.rebuild == Some(ops.queue(key.shared_world)[0].1))
        },
{
}

/// A reload or rebuild that is first in its queue ends when it is to end: its record gets the result, it
/// leaves the queue and its slot, and of a reload without an error the other sessions are told. One that is
/// not first stays where it is, unless it was over before.
pub proof fn law_first_operation_ends(st: Stage, sc: ScopeView, which: ExplicitSlot, error: Option<Seq<char>>)
    ensures
        ({
            let slot = if which == ExplicitSlot::Reload { st.slots.reload } else { st.slots.rebuild };
            let queue = st.registry.operations.queue(sc.key.shared_world);
            let r = st.finish_explicit(sc, which, error);
            let first = slot matches Some(id) && queue.len() > 0 && queue[0] == (sc.key, id);
            let now = if which == ExplicitSlot::Reload { r.slots.reload } else { r.slots.rebuild };
            &&& first ==> {
                &&& r.registry.operations.records.contains_key(slot->0)
                &&& r.registry.operations.records[slot->0].result == Some(
                    match error {
                        None => ResultView::Done(sc.indexes),
                        Some(error) => ResultView::Failed(error),
                    },
                )
                &&& r.registry.operations.queue(sc.key.shared_world) == queue.skip(1)
                &&& now is None
                &&& which == ExplicitSlot::Reload && error is None ==> r.state.notify
                &&& which == ExplicitSlot::Rebuild || error is Some ==> r.state == st.state
            }
            &&& !first ==> r.registry == st.registry && r.state == st.state
            &&& !first && slot is Some && !st.registry.operations.finished(slot->0) ==> now == slot
            &&& r.slots.normal == st.slots.normal && r.slots.next_reload == st.slots.next_reload
        }),
{
    reveal(Stage::finish_explicit);
    let queue = st.registry.operations.queue(sc.key.shared_world);
    if queue.len() > 0 {
        assert(queue.drop_first() =~= queue.skip(1));
    }
}

/// A normal operation that is registered ends when it is to end: its record gets the result, it is no longer
/// registered nor in its slot, and where there was no error the other sessions are told.
pub proof fn law_registered_operation_ends(st: Stage, sc: ScopeView, error: Option<Seq<char>>, id: u64)
    requires
        st.registry.operations.wf(),
        st.slots.normal == Some(id),
    ensures
        ({
            let r = st.finish_normal(sc, error);
            let listed = st.registry.operations.normal(sc.key.shared_world).contains(id);
            &&& listed ==> {
                &&& r.registry.operations.records.contains_key(id)
                &&& r.registry.operations.records[id].result == Some(
                    match error {
                        None => ResultView::Done(sc.indexes),
                        Some(error) => ResultView::Failed(error),
                    },
                )
                &&& r.slots.normal is None
                &&& r.state.notify == (st.state.notify || error is None)
            }
            &&& !listed ==> r.registry == st.registry && r.state == st.state
            &&& r.slots.reload == st.slots.reload && r.slots.rebuild == st.slots.rebuild && r.slots.next_reload
                == st.slots.next_reload
        }),
{
    reveal(Stage::finish_normal);
}

/// Build data is waited for exactly when it is the session's turn and one of its workspaces has none.
pub proof fn law_missing_build_data_is_waited_for(st: Stage, sc: ScopeView)
    ensures
        st.builds_wait(sc) <==> st.slots.ready(st.registry.operations, sc.key) && exists|i: int|
            0 <= i < sc.indexes.len() && (#[trigger] sc.indexes[i]) < sc.workspaces.len()
                && !sc.workspaces[sc.indexes[i] as int].build_data_loaded,
{
    reveal(Stage::builds_wait);
}

/// Macros are waited for exactly when it is the session's turn and some workspace has its build data and not
/// its macros, that is in the session's view or, in the turn of a reload or rebuild, uses or asks for one of
/// the servers that it is about.
pub proof fn law_missing_macros_are_waited_for(st: Stage, sc: ScopeView)
    requires
        sc.workspaces.len() <= usize::MAX,
    ensures
        st.macros_wait(sc) <==> st.slots.ready(st.registry.operations, sc.key) && exists|w: int|
            {
                &&& 0 <= w < sc.workspaces.len()
                &&& (#[trigger] sc.workspaces[w]).build_data_loaded && !sc.workspaces[w].proc_macros_loaded
                &&& {
                    ||| sc.indexes.contains(w as usize)
                    ||| st.operation_keys() matches Some(keys) && sc.workspaces[w].client matches Some(Ok(client))
                        && keys.contains(client.key)
                    ||| st.operation_keys() matches Some(keys) && spawn_key(sc.workspaces[w].facts, sc.config) matches Some(Ok(key))
                        && keys.contains(key)
                }
            },
{
    reveal(Stage::macros_wait);
    let ws = sc.workspaces;
    let scope = crate::build_data::macro_scope(ws, sc.indexes, st.operation_keys(), Some(sc.config));
    assert forall|w: int| 0 <= w < ws.len() implies #[trigger] scope.contains(w as usize) == {
        ||| sc.indexes.contains(w as usize)
        ||| st.operation_keys() matches Some(keys) && ws[w].client matches Some(Ok(client)) && keys.contains(client.key)
        ||| st.operation_keys() matches Some(keys) && spawn_key(ws[w].facts, sc.config) matches Some(Ok(key)) && keys.contains(key)
    } by {
        law_macros_are_loaded_for_all_users(ws, sc.indexes, st.operation_keys(), Some(sc.config), w as usize);
    }
    if crate::macros::any_macros_pending(ws, scope) {
        let i = choose|i: int| 0 <= i < scope.len() && (#[trigger] scope[i]) < ws.len() && crate::macros::macros_pending(ws[scope[i] as int]);
        let w = scope[i] as int;
        assert(scope.contains(w as usize));
        assert(ws[w].build_data_loaded);
    }
    if exists|w: int|
        {
            &&& 0 <= w < ws.len()
            &&& (#[trigger] ws[w]).build_data_loaded && !ws[w].proc_macros_loaded
            &&& scope.contains(w as usize)
        } {
        let w = choose|w: int|
            {
                &&& 0 <= w < ws.len()
                &&& (#[trigger] ws[w]).build_data_loaded && !ws[w].proc_macros_loaded
                &&& scope.contains(w as usize)
            };
        let i = scope.index_of(w as usize);
        assert(scope[i] < ws.len() && crate::macros::macros_pending(ws[scope[i] as int]));
    }
}

/// An operation is about the servers of the reload whose turn has come and is not over, else of such a
/// rebuild, and else about none.
pub proof fn law_operation_is_about_its_own_servers(st: Stage)
    ensures
        ({
            let records = st.registry.operations.records;
            let reload = st.slots.reload matches Some(id) && records.contains_key(id) && records[id].turn_ready
                && records[id].result is None;
            let rebuild = st.slots.rebuild matches Some(id) && records.contains_key(id) && records[id].turn_ready
                && records[id].result is None;
            &&& reload ==> st.operation_keys() == Some(records[st.slots.reload->0].keys)
            &&& !reload && rebuild ==> st.operation_keys() == Some(records[st.slots.rebuild->0].keys)
            &&& !reload && !rebuild ==> st.operation_keys() is None
        }),
{
}

/// A reload whose turn has come asks for missing build data first, then for missing macros, each where that
/// is not under way already, and where nothing is missing and nothing under way it ends and the other
/// sessions are told, if it is first in its queue. A reload whose turn has not come stays as it is.
pub proof fn law_reload_goes_through_its_stages(st: Stage, sc: ScopeView)
    ensures
        ({
            let records = st.registry.operations.records;
            let active = st.slots.reload matches Some(id) && records.contains_key(id) && records[id].turn_ready
                && records[id].result is None;
            let idle_builds = st.state.fetch_build_data_queue.requested is None && !st.state.fetch_build_data_queue.in_progress;
            let idle_macros = st.state.fetch_proc_macros_queue.requested is None && !st.state.fetch_proc_macros_queue.in_progress;
            let queue = st.registry.operations.queue(sc.key.shared_world);
            let first = queue.len() > 0 && queue[0] == (sc.key, st.slots.reload->0);
            let r = st.advanced(sc);
            &&& !active ==> r == st
            &&& active && idle_builds && st.builds_wait(sc) ==> r.state.fetch_build_data_queue.requested is Some
                && r.slots.reload == st.slots.reload && r.registry == st.registry && r.state.reload_pending
            &&& active && idle_builds && !st.builds_wait(sc) && idle_macros && st.macros_wait(sc)
                ==> r.state.fetch_proc_macros_queue.requested is Some && r.slots.reload == st.slots.reload && r.registry
                == st.registry && r.state.reload_pending
            &&& active && idle_builds && !st.builds_wait(sc) && idle_macros && !st.macros_wait(sc) && first ==> r.slots.reload is None
                && r.state.notify && !r.state.reload_pending && !r.state.proc_macro_clients_failed
            &&& active && !idle_builds ==> r.state.fetch_build_data_queue == st.state.fetch_build_data_queue && r.registry
                == st.registry && r.slots == st.slots
        }),
{
    let waiting = st.with(ReloadState { reload_pending: true, ..st.state });
    assert(waiting.builds_wait(sc) == st.builds_wait(sc) && waiting.macros_wait(sc) == st.macros_wait(sc)) by {
        reveal(Stage::builds_wait);
        reveal(Stage::macros_wait);
    }
    reveal(Stage::finish_explicit);
    reveal(Stage::finished_shared);
    reveal(Stage::queued_rebuild);
    reveal(Stage::rebuild_begun);
    reveal(Stage::rebuild_prepared);
}

/// A rebuild that was asked for while another was under way is queued once there is none: it comes last in
/// its world's queue, its turn is awaited, the list of servers is cleared, and it is no longer marked.
pub proof fn law_marked_rebuild_is_queued(st: Stage, sc: ScopeView)
    requires
        st.registry.operations.wf(),
        st.registry.operations.next < u64::MAX,
    ensures
        ({
            let r = st.queued_rebuild(sc);
            let id = st.registry.operations.next;
            let queue = st.registry.operations.queue(sc.key.shared_world);
            &&& st.state.rebuild_queued && st.slots.rebuild is None ==> {
                &&& r.slots.rebuild == Some(id)
                &&& r.registry.operations.queue(sc.key.shared_world) == queue.push((sc.key, id))
                &&& r.registry.operations.records.contains_key(id) && r.registry.operations.records[id].result is None
                &&& !r.state.rebuild_queued
                &&& r.state.clients == ClientsEffect::Clear
                &&& r.state.await_rebuild matches Some(token) && token.operation == Some(id) && token.session_id == sc.session_id
                    && token.generation == 0
            }
            &&& !(st.state.rebuild_queued && st.slots.rebuild is None) ==> r == st
            &&& r.slots.reload == st.slots.reload && r.slots.next_reload == st.slots.next_reload && r.slots.normal
                == st.slots.normal
        }),
{
    reveal(Stage::queued_rebuild);
    reveal(Stage::rebuild_begun);
    reveal(Stage::rebuild_prepared);
}

/// A session that leaves a reload or a rebuild behind is at rest: nothing is pending, and whether its servers
/// failed is known. Its stages stand for no operation any more.
pub proof fn law_operation_is_left_behind(st: Stage, sc: ScopeView, failed: bool)
    ensures
        ({
            let r = st.finished_shared(sc, failed);
            &&& !r.state.reload_pending
            &&& r.state.build_data_operation is None && r.state.proc_macro_operation is None
            &&& !st.state.rebuild_queued || st.slots.rebuild is Some ==> r.state.proc_macro_clients_failed == failed && r.slots
                == st.slots && r.registry == st.registry
        }),
{
    reveal(Stage::finished_shared);
    reveal(Stage::queued_rebuild);
    reveal(Stage::rebuild_begun);
    reveal(Stage::rebuild_prepared);
}

/// Workspaces that another session changed are taken over once all of them have come in, unless such a
/// change is being taken over already. An answer to a reload that was not dealt with counts once: the reload
/// goes on if all workspaces came in and its turn is on, and otherwise the servers count as failed exactly
/// when some did not come in.
pub proof fn law_changed_workspaces_are_adopted(state: ReloadState, response: WorkspaceResponse, active: bool)
    ensures
        ({
            let all = forall|i: int| 0 <= i < response.loaded@.len() ==> #[trigger] response.loaded@[i];
            let answers = response.reload_id is Some && state.handled_workspace_reload != response.reload_id;
            let r = state.response_taken(response, active);
            &&& r.workspace_adoption == (if response.adopted && !state.build_data_adoption && all {
                Some(response.workspaces)
            } else {
                None
            })
            &&& answers ==> r.handled_workspace_reload == response.reload_id && r.reload_pending == (all && active)
                && r.proc_macro_clients_failed == !all && r.clients == ClientsEffect::Clear
            &&& !answers ==> r.handled_workspace_reload == state.handled_workspace_reload && r.reload_pending
                == state.reload_pending && r.clients == state.clients
            &&& !answers ==> r.proc_macro_clients_failed == (state.proc_macro_clients_failed && !(response.reload_id is None && all))
            &&& r.rebuild_queued == state.rebuild_queued && r.workspaces == state.workspaces && r.build_data_response
                == state.build_data_response
        }),
{
}

/// A session that comes to queue under another key forgets what was under way, and a rebuild that was under
/// way, asked for or registered is marked to be queued anew.
pub proof fn law_work_of_another_key_is_forgotten(state: ReloadState, registered: bool)
    ensures
        ({
            let r = state.scope_left(registered);
            &&& r.rebuild_queued <==> state.rebuild_queued || state.rebuilding_proc_macros is Some || state.rebuild_proc_macros
                || registered
            &&& r.rebuilding_proc_macros is None && !r.rebuild_proc_macros && !r.reload_pending
            &&& r.build_data_operation is None && r.proc_macro_operation is None && r.build_data_rebuild_id is None
                && r.rebuild_response_current is None
            &&& r.workspaces == state.workspaces && r.fetch_build_data_queue == state.fetch_build_data_queue
                && r.fetch_proc_macros_queue == state.fetch_proc_macros_queue && r.fetch_workspaces_queue
                == state.fetch_workspaces_queue
        }),
{
}

/// Build data is current exactly when it was fetched under a token that stands for what the session works on
/// and for the workspaces in use. It answers a rebuild exactly when it is current and was fetched for the
/// rebuild under way. Data that is not current is dropped, unless it is being taken over.
pub proof fn law_stale_build_data_is_dropped(st: Stage, sc: ScopeView, expand: bool)
    ensures
        ({
            let fetched = st.state.build_data_operation matches Some(token) && st.slots.matches(
                st.registry.operations,
                sc.session_id,
                token,
            );
            let current = fetched && (st.state.build_data_response matches Some(response) && response.workspaces
                == st.state.workspaces);
            let noted = st.currency_noted(sc).state;
            &&& noted.build_data_response_current == current
            &&& noted.rebuild_response_current is Some <==> current && st.state.rebuilding_proc_macros is Some && (
            st.state.build_data_response matches Some(response) && response.rebuild_id == st.state.rebuilding_proc_macros)
            &&& noted.rebuild_response_current is Some ==> noted.rebuild_response_current == st.state.rebuilding_proc_macros
            &&& st.state.build_data_response is Some && !st.state.build_data_response_current && !st.state.build_data_adoption
                ==> st.stale_dropped(sc, expand).state.build_data_response is None
            &&& st.state.build_data_response_current || st.state.build_data_adoption ==> st.stale_dropped(sc, expand) == st
        }),
{
    reveal(Stage::stale_dropped);
}

/// Build data is handed to the world only for the workspaces in use: that of a rebuild to the rebuild that it
/// was fetched for, and other data where it is current and no rebuild is under way.
pub proof fn law_build_data_is_used_for_its_purpose(state: ReloadState, same_workspaces: bool)
    ensures
        state.data_use(same_workspaces) == BuildDataUse::Build <==> same_workspaces && state.rebuilding_proc_macros is None
            && state.build_data_response_current && (state.build_data_response matches Some(response)
            && response.rebuild_id is None),
        state.data_use(same_workspaces) == BuildDataUse::Rebuild <==> same_workspaces && state.rebuilding_proc_macros is Some
            && state.rebuild_response_current == state.rebuilding_proc_macros && (state.build_data_response matches Some(response)
            && response.rebuild_id == state.rebuilding_proc_macros),
{
}

/// Workspaces to be taken over are asked for as soon as no build data is being fetched.
pub proof fn law_adoption_asks_for_build_data(st: Stage)
    ensures
        st.state.workspace_adoption is Some && st.state.fetch_build_data_queue.requested is None
            && !st.state.fetch_build_data_queue.in_progress ==> st.adoption_asked().state.fetch_build_data_queue.requested == Some(
            Cause::WorkspaceUpdated,
        ),
        st.state.workspace_adoption is None ==> st.adoption_asked() == st,
{
}

/// Settings that leave the session in its world ask for nothing: the workspaces are fetched for them exactly
/// when the session had no world or its world is another now.
pub proof fn law_settings_of_another_world_ask_for_workspaces(before: Option<WorldKeyView>, after: Option<WorldKeyView>)
    ensures
        !world_changed(before, after) <==> (before matches Some(a) && after matches Some(b) && a == b),
{
}

/// A normal operation begins exactly when the session has none and neither a reload nor a rebuild is
/// pending.
pub proof fn law_normal_work_begins_at_rest(st: Stage, sc: ScopeView)
    ensures
        ({
            let r = st.normal_begun(sc);
            &&& !st.state.reload_pending && st.slots.normal is None ==> r.slots.normal == Some(st.registry.operations.next)
                && r.registry.operations == st.registry.operations.normal_begun(sc.key.shared_world)
            &&& st.state.reload_pending || st.slots.normal is Some ==> r == st
            &&& r.state == st.state && r.slots.reload == st.slots.reload && r.slots.rebuild == st.slots.rebuild
        }),
{
    reveal(Stage::normal_begun);
}

/// When build data is fetched, it is noted under which token and for which state of the world, and whether for
/// a reload. A rebuild that was asked for is under way from then on, under a number of its own.
pub proof fn law_build_data_is_fetched_under_a_token(st: Stage, sc: ScopeView)
    requires
        st.state.proc_macro_rebuild_id < u64::MAX,
    ensures
        ({
            let r = st.build_data_begun(sc);
            &&& r.state.build_data_operation == Some(r.slots.token(r.registry.operations, sc.session_id))
            &&& r.state.build_data_generation == sc.generation && r.state.build_data_reload == st.state.reload_pending
            &&& st.state.rebuild_proc_macros ==> !r.state.rebuild_proc_macros && r.state.proc_macro_rebuild_id
                == st.state.proc_macro_rebuild_id + 1 && r.state.rebuilding_proc_macros == Some(r.state.proc_macro_rebuild_id)
                && r.state.build_data_rebuild_id == Some(r.state.proc_macro_rebuild_id)
            &&& !st.state.rebuild_proc_macros ==> r.state.build_data_rebuild_id is None && r.state.rebuilding_proc_macros
                == st.state.rebuilding_proc_macros && r.state.proc_macro_rebuild_id == st.state.proc_macro_rebuild_id
        }),
{
    reveal(Stage::normal_begun);
}

/// A rebuild whose build data the world took goes on to its macros, if they are to be expanded and some are
/// missing, and is over otherwise. An error ends it too, and stale data has it begin anew.
pub proof fn law_rebuild_goes_on_to_its_macros(st: Stage, sc: ScopeView, expand: bool, error: Seq<char>)
    ensures
        expand && st.macros_wait(sc) ==> ({
            let r = st.rebuild_answered(sc, expand, WorldUpdateView::Applied);
            r.state.fetch_proc_macros_queue.requested is Some && r.state.rebuilding_proc_macros == st.state.rebuilding_proc_macros
                && r.slots == st.slots && r.registry == st.registry
        }),
        !(expand && st.macros_wait(sc)) ==> st.rebuild_answered(sc, expand, WorldUpdateView::Applied) == st.rebuild_ended(sc, None),
        st.rebuild_answered(sc, expand, WorldUpdateView::Failed(error)) == st.rebuild_ended(sc, Some(error)),
        ({
            let r = st.rebuild_answered(sc, expand, WorldUpdateView::Stale);
            r.state.rebuilding_proc_macros is None && r.state.rebuild_proc_macros && r.state.reload_pending
                && r.state.fetch_build_data_queue.requested is Some && r.slots == st.slots && r.registry == st.registry
        }),
{
    reveal(Stage::rebuild_answered);
}

/// A rebuild that ends is no longer under way and nothing is pending. Where it is first in its queue its
/// record gets the result: the workspaces, or the error.
pub proof fn law_ended_rebuild_has_a_result(st: Stage, sc: ScopeView, error: Option<Seq<char>>, id: u64)
    requires
        st.registry.operations.wf(),
        st.registry.operations.next < u64::MAX,
        st.slots.rebuild == Some(id),
        st.registry.operations.queue(sc.key.shared_world).len() > 0,
        st.registry.operations.queue(sc.key.shared_world)[0] == (sc.key, id),
    ensures
        ({
            let r = st.rebuild_ended(sc, error);
            &&& r.state.rebuilding_proc_macros is None && !r.state.reload_pending
            &&& r.registry.operations.records.contains_key(id)
            &&& r.registry.operations.records[id].result == Some(
                match error {
                    None => ResultView::Done(sc.indexes),
                    Some(error) => ResultView::Failed(error),
                },
            )
            &&& r.slots.rebuild != Some(id)
        }),
{
    reveal(Stage::rebuild_ended);
    reveal(Stage::finish_explicit);
    reveal(Stage::finished_shared);
    reveal(Stage::queued_rebuild);
    reveal(Stage::rebuild_begun);
    reveal(Stage::rebuild_prepared);
    let ops = st.registry.operations;
    let world = sc.key.shared_world;
    assert(!ops.finished(ops.queue(world)[0].1));
    assert(id < ops.next);
}

/// A reload that ends does so with the workspaces or with the error, and nothing is pending after it.
pub proof fn law_ended_reload_has_a_result(st: Stage, sc: ScopeView, error: Option<Seq<char>>, id: u64)
    requires
        st.registry.operations.wf(),
        st.registry.operations.next < u64::MAX,
        st.slots.reload == Some(id),
        st.registry.operations.queue(sc.key.shared_world).len() > 0,
        st.registry.operations.queue(sc.key.shared_world)[0] == (sc.key, id),
    ensures
        ({
            let r = st.reload_ended(sc, error);
            &&& !r.state.reload_pending
            &&& r.registry.operations.records.contains_key(id)
            &&& r.registry.operations.records[id].result == Some(
                match error {
                    None => ResultView::Done(sc.indexes),
                    Some(error) => ResultView::Failed(error),
                },
            )
            &&& r.slots.reload is None
            &&& error is None ==> r.state.notify
        }),
{
    reveal(Stage::reload_ended);
    reveal(Stage::finish_explicit);
    reveal(Stage::finished_shared);
    reveal(Stage::queued_rebuild);
    reveal(Stage::rebuild_begun);
    reveal(Stage::rebuild_prepared);
    let ops = st.registry.operations;
    let world = sc.key.shared_world;
    assert(!ops.finished(ops.queue(world)[0].1));
    assert(id < ops.next);
}

/// Once macros have come in that the world took, the operation that they were loaded for is over: the rebuild
/// if one is under way, and else the reload. Where they came too late a rebuild begins anew.
pub proof fn law_loaded_macros_end_their_operation(st: Stage, sc: ScopeView, error: Seq<char>, normal_current: bool)
    ensures
        st.state.rebuilding_proc_macros is Some ==> st.macros_answered(sc, WorldUpdateView::Applied) == st.rebuild_ended(sc, None)
            && st.macros_answered(sc, WorldUpdateView::Failed(error)) == st.rebuild_ended(sc, Some(error)),
        st.state.rebuilding_proc_macros is None ==> st.macros_answered(sc, WorldUpdateView::Applied) == st.reload_ended(sc, None),
        st.macros_answered(sc, WorldUpdateView::Stale) == st,
        st.state.rebuilding_proc_macros is Some ==> ({
            let r = st.macros_retried(sc, normal_current);
            r.state.rebuilding_proc_macros is None && r.state.rebuild_proc_macros && r.state.fetch_build_data_queue.requested is Some
        }),
{
    reveal(Stage::macros_answered);
    reveal(Stage::macros_retried);
}

/// A reload whose build data the world took ends here only where no macros are to be expanded or none wait.
pub proof fn law_reload_waits_for_its_macros(st: Stage, sc: ScopeView, expand: bool)
    requires
        st.state.reload_pending,
        expand,
        st.macros_wait(sc),
    ensures
        st.build_taken(sc, true, expand) == st,
{
    reveal(Stage::build_taken);
}

/// Build data that the world did not take is fetched again where it had become stale, and a reload that
/// asked for it stays open for that. Where the world could not take it, the work that asked for it ends with
/// the error: the reload, or else the session's normal operation.
pub proof fn law_refused_build_data_is_dealt_with(st: Stage, sc: ScopeView, reload: bool, update: WorldUpdateView)
    ensures
        ({
            let r = st.build_refused(sc, reload, update);
            &&& update is Applied ==> r == st
            &&& update is Stale ==> r.state.fetch_build_data_queue.requested == Some(Cause::BuildDataStale)
            &&& update is Stale && reload ==> r.registry == st.registry && r.slots == st.slots
            &&& update is Stale && !reload ==> r.registry == st.build_operation_ended(
                sc,
                Some("shared build-data result became stale"@),
            ).registry
            &&& update matches WorldUpdateView::Failed(error) ==> r == (if reload {
                st.reload_ended(sc, Some(error))
            } else {
                st.build_operation_ended(sc, Some(error))
            })
        }),
{
    reveal(Stage::build_refused);
}

/// A rebuild under way is told that its answer has become stale; without one nothing happens.
pub proof fn law_stale_answers_reach_the_rebuild(st: Stage, sc: ScopeView, expand: bool)
    ensures
        st.state.rebuilding_proc_macros is None ==> st.stale_answered(sc, expand) == st,
        st.state.rebuilding_proc_macros is Some ==> st.stale_answered(sc, expand) == st.clients_set(
            sc,
            false,
            expand,
            WorldUpdateView::Stale,
        ),
{
}

/// A switch that failed ends the reload with the error. What was known of the answers that it dealt with is
/// forgotten.
pub proof fn law_failed_switch_ends_the_reload(st: Stage, sc: ScopeView, error: Seq<char>, changed: bool, expand: bool)
    ensures
        ({
            let r = st.switch_finished(sc, Some(error), changed, expand);
            let ended = st.adoption_asked().reload_ended(sc, Some(error));
            &&& r.registry == ended.registry && r.slots == ended.slots
            &&& r.state.rebuild_response_current is None
            &&& !r.state.build_data_response_current
            &&& !r.state.build_data_adoption
        }),
{
}

/// Once macros have come in, none are being fetched. Those fetched under a token that does not stand for
/// present work change nothing of what is registered.
pub proof fn law_macros_that_came_in_are_not_fetched(st: Stage, sc: ScopeView, update: WorldUpdateView)
    ensures
        ({
            let current = st.state.proc_macro_operation matches Some(token) && st.slots.matches(
                st.registry.operations,
                sc.session_id,
                token,
            );
            let r = st.macros_taken(sc, update);
            &&& !current ==> !r.state.fetch_proc_macros_queue.in_progress && r.registry == st.registry && r.slots == st.slots
            &&& current && update is Stale ==> !r.state.fetch_proc_macros_queue.in_progress && r.registry == st.registry
                && r.slots == st.slots
        }),
{
    reveal(Stage::macros_answered);
    reveal(Stage::refreshed);
}

/// A normal operation whose macros were fetched ends only at rest: with no reload pending, no servers
/// failed, and no macros to wait for.
pub proof fn law_macros_end_their_operation_at_rest(st: Stage, sc: ScopeView, normal_current: bool)
    ensures
        st.state.reload_pending || st.state.proc_macro_clients_failed || !normal_current || st.macros_wait(sc) ==> st.macros_done(
            sc,
            normal_current,
        ) == st,
        !st.state.reload_pending && !st.state.proc_macro_clients_failed && normal_current && !st.macros_wait(sc) ==> st.macros_done(
            sc,
            normal_current,
        ).registry == st.finish_normal(sc, None).registry,
{
    reveal(Stage::macros_done);
    reveal(Stage::macro_operation_ended);
}

/// A session with a reload pending or a normal operation under way goes on with it.
pub proof fn law_work_under_way_goes_on(st: Stage, sc: ScopeView)
    ensures
        st.state.reload_pending || st.slots.normal is Some ==> st.may_go_on(sc),
{
}

/// A session lists the servers of its workspaces exactly while it has no reload or rebuild, none is pending,
/// and no servers have failed. Nothing else comes of it.
pub proof fn law_servers_are_listed_only_at_rest(st: Stage)
    ensures
        ({
            let rest = !st.state.reload_pending && !st.state.proc_macro_clients_failed && st.slots.reload is None
                && st.slots.next_reload is None && st.slots.rebuild is None;
            let r = st.refreshed();
            &&& rest ==> r.state.clients == ClientsEffect::Refresh
            &&& !rest ==> r.state.clients == st.state.clients
            &&& r.registry == st.registry && r.slots == st.slots
            &&& r.state == (ReloadState { clients: r.state.clients, ..st.state })
        }),
{
    reveal(Stage::refreshed);
}

} // verus!
