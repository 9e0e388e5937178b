//! Whose turn it is: readers and writers, operations, collections and snapshots.
use analyzed::access::SharedWorldAccess;
use analyzed::config::{shared_analyzer_context_from_config, AnalyzerSettings, CargoSettings, LinkedProject};
use analyzed::gc::SharedAnalyzerGcState;
use analyzed::keys::SharedAnalyzerBackendKey;
use analyzed::operations::{OperationWait, SharedAnalyzerOperationToken};
use analyzed::registry::SharedAnalyzerRegistry;
use analyzed::runtime::{RuntimeSession, SnapshotOutcome};
use analyzed::slots::{operation_scope_matches, CommitGate, ExplicitSlot, OperationSlots};
use analyzed::spawn_key::ProcMacroSpawnKey;
use analyzed::tokens::Tokens;

fn key(project: &str, features: &str) -> SharedAnalyzerBackendKey {
    let settings = AnalyzerSettings {
        excluded: vec![],
        projects: vec![LinkedProject::ProjectManifest(project.to_string())],
        detached_files: vec![],
        cargo: CargoSettings {
            all_targets: true,
            features: features.to_string(),
            target: None,
            sysroot: None,
            sysroot_src: None,
            rustc_source: None,
            extra_includes: vec![],
            cfg_overrides: String::new(),
            wrap_rustc_in_build_scripts: true,
            invocation_strategy: String::new(),
            run_build_script_command: String::new(),
            extra_args: vec![],
            extra_env: vec![],
            target_dir_config: String::new(),
            set_test: true,
            no_deps: false,
            metadata_extra_args: vec![],
        },
        lru_parse_query_capacity: None,
        lru_query_capacities: None,
        expand_proc_attr_macros: true,
        run_build_scripts: true,
        expand_proc_macros: true,
        proc_macro_srv: None,
        ignored_proc_macros: vec![],
        proc_macro_num_processes: 1,
        prefill_caches: false,
        prime_caches_num_threads: 1,
    };
    match shared_analyzer_context_from_config(settings) {
        Ok((key, _)) => key,
        Err(error) => panic!("{error:?}"),
    }
}

fn server(path: &str) -> ProcMacroSpawnKey {
    ProcMacroSpawnKey { path: path.to_string(), toolchain: None, env: vec![] }
}

#[test]
fn writer_keeps_other_sessions_out() {
    let mut access = SharedWorldAccess::new();
    let permit = access.write(Some(1));
    assert!(access.read_is_blocked(2));
    assert!(access.read(2).is_none());
    assert!(!access.read_is_blocked(1));
    access.end_write(permit);
    assert!(!access.read_is_blocked(2));
    assert!(access.read(2).is_some());
}

#[test]
fn writer_without_a_session_keeps_all_out() {
    let mut access = SharedWorldAccess::new();
    let permit = access.write(None);
    assert!(access.read(1).is_none());
    access.end_write(permit);
    assert!(access.read(1).is_some());
}

#[test]
fn reader_keeps_other_writers_waiting() {
    let mut access = SharedWorldAccess::new();
    let read = access.read(1).unwrap();
    assert!(access.write_is_blocked(Some(2)));
    assert!(access.write_is_blocked(None));
    access.end_read(read);
    assert!(!access.write_is_blocked(Some(2)));
    assert!(!access.write_is_blocked(None));
}

#[test]
fn own_writer_does_not_wait_for_own_readers() {
    let mut access = SharedWorldAccess::new();
    let _read = access.read(1).unwrap();
    assert!(!access.write_is_blocked(Some(1)));
}

#[test]
fn overlay_change_is_noticed_by_the_others() {
    let mut access = SharedWorldAccess::new();
    let read = access.read(1).unwrap();
    let other = access.read(2).unwrap();
    access.end_read(other);
    assert_eq!(access.foreign_epoch(1), Some(0));
    let (permit, foreign) = access.write_overlay(2);
    assert!(foreign);
    assert_eq!(access.foreign_epoch(1), Some(1));
    assert_eq!(access.foreign_epoch(2), Some(0));
    access.end_write(permit);
    access.end_read(read);
    let (permit, foreign) = access.write_overlay(2);
    assert!(!foreign);
    access.end_write(permit);
    access.unregister_session(1);
    assert_eq!(access.foreign_epoch(1), None);
}

#[test]
fn grant_holds_until_it_ends() {
    let mut access = SharedWorldAccess::new();
    let write = access.write(Some(1));
    let own = access.read(1).unwrap();
    assert!(access.read(2).is_none());
    access.end_read(own);
    assert!(access.read(2).is_none());
    access.end_write(write);
    let second = access.read(2).unwrap();
    let third = access.read(3).unwrap();
    assert!(access.write_is_blocked(Some(2)));
    access.end_read(third);
    assert!(!access.write_is_blocked(Some(2)));
    assert!(access.write_is_blocked(Some(1)));
    access.end_read(second);
    assert!(!access.write_is_blocked(Some(1)));
}

#[test]
fn collection_waits_for_the_last_busy_session() {
    let mut gc = SharedAnalyzerGcState::new();
    gc.register_session();
    gc.register_session();
    assert!(!gc.request());
    assert!(!gc.set_session_busy(false));
    assert!(gc.set_session_busy(false));
    assert!(gc.collecting && !gc.dirty);
    gc.changed();
    assert!(gc.finish_collection());
    assert!(!gc.finish_collection());
    assert!(!gc.collecting);
}

#[test]
fn leaving_session_may_start_a_collection() {
    let mut gc = SharedAnalyzerGcState::new();
    gc.register_session();
    gc.changed();
    assert!(gc.unregister_session(true));
    assert_eq!(gc.busy_sessions, 0);
}

#[test]
fn operations_take_turns_in_order() {
    let (a, b) = (key("/a", ""), key("/b", ""));
    let mut registry = SharedAnalyzerRegistry::new();
    let first = registry.enqueue_operation(a.duplicate());
    let second = registry.enqueue_operation(b.duplicate());
    assert_eq!(registry.active_operation(&a), Some(first));
    assert_eq!(registry.active_operation(&b), Some(first));
    assert_eq!(registry.wait_operation_ready(&b.shared_world, second), OperationWait::Operation(first));
    assert_eq!(registry.wait_operation_ready(&a.shared_world, first), OperationWait::Ready);
    assert!(registry.finish_operation(&a, first, Ok(vec![])));
    assert!(registry.operation_finished(first));
    assert_eq!(registry.wait_operation_ready(&b.shared_world, second), OperationWait::Ready);
    assert!(!registry.finish_operation(&a, second, Ok(vec![])));
}

#[test]
fn worlds_queue_apart() {
    let (a, b) = (key("/a", ""), key("/a", "all"));
    let mut registry = SharedAnalyzerRegistry::new();
    let first = registry.enqueue_operation(a.duplicate());
    let second = registry.enqueue_operation(b.duplicate());
    assert_eq!(registry.wait_operation_ready(&a.shared_world, first), OperationWait::Ready);
    assert_eq!(registry.wait_operation_ready(&b.shared_world, second), OperationWait::Ready);
}

#[test]
fn normal_operation_waits_for_the_explicit_turn() {
    let a = key("/a", "");
    let mut registry = SharedAnalyzerRegistry::new();
    let normal = registry.begin_normal_operation(&a);
    assert!(registry.normal_operation_ready(&a.shared_world, normal));
    let explicit = registry.enqueue_operation(a.duplicate());
    assert!(registry.operation_awaits(explicit, normal));
    assert_eq!(registry.wait_operation_ready(&a.shared_world, explicit), OperationWait::Operation(normal));
    assert!(registry.finish_normal_operation(&a, normal, Ok(vec![0])));
    assert_eq!(registry.wait_operation_ready(&a.shared_world, explicit), OperationWait::Ready);
    let late = registry.begin_normal_operation(&a);
    assert!(!registry.normal_operation_ready(&a.shared_world, late));
    assert_eq!(registry.wait_normal_operation_ready(&a.shared_world, late), OperationWait::Operation(explicit));
    assert!(registry.finish_operation(&a, explicit, Ok(vec![])));
    assert_eq!(registry.wait_normal_operation_ready(&a.shared_world, late), OperationWait::Ready);
}

#[test]
fn cancelled_operation_leaves_the_queue() {
    let a = key("/a", "");
    let mut registry = SharedAnalyzerRegistry::new();
    let first = registry.enqueue_operation(a.duplicate());
    let second = registry.enqueue_operation(a.duplicate());
    assert!(registry.cancel_operation(&a, second, "gone".to_string()));
    assert!(registry.operation_finished(second));
    assert_eq!(registry.active_operation(&a), Some(first));
    assert!(!registry.cancel_operation(&a, second, "gone".to_string()));
}

#[test]
fn stale_token_is_refused() {
    let a = key("/a", "");
    let mut registry = SharedAnalyzerRegistry::new();
    let first = registry.enqueue_operation(a.duplicate());
    let token = SharedAnalyzerOperationToken { session_id: 1, operation: Some(first), generation: 1 };
    let fresh = SharedAnalyzerOperationToken { generation: registry.operation_generation(first), ..token };
    assert_eq!(registry.reload_continuation(&a, None), None);
    assert_eq!(registry.reload_continuation(&a, Some(SharedAnalyzerOperationToken { generation: 99, ..token })), None);
    assert_eq!(registry.reload_continuation(&a, Some(fresh)), Some(first));
    assert_eq!(registry.operation_generation(first), fresh.generation + 1);
    assert_eq!(registry.reload_continuation(&a, Some(fresh)), None);
}

#[test]
fn one_reload_waits_behind_another() {
    let a = key("/a", "");
    let mut registry = SharedAnalyzerRegistry::new();
    let mut slots = OperationSlots::empty();
    let first = slots.begin_reload(&mut registry, 1, &a).unwrap();
    let second = slots.begin_reload(&mut registry, 1, &a).unwrap();
    assert_ne!(first.operation, second.operation);
    assert_eq!((slots.reload, slots.next_reload), (first.operation, second.operation));
    let before = slots;
    assert!(slots.begin_reload(&mut registry, 1, &a).is_none());
    assert_eq!(slots, before);
    assert_eq!(registry.active_operation(&a), first.operation);
    assert!(registry.finish_operation(&a, first.operation.unwrap(), Ok(vec![])));
    assert_eq!(registry.active_operation(&a), second.operation);
    assert!(registry.finish_operation(&a, second.operation.unwrap(), Ok(vec![])));
    assert_eq!(registry.active_operation(&a), None);
}

#[test]
fn operation_remembers_its_servers() {
    let a = key("/a", "");
    let mut registry = SharedAnalyzerRegistry::new();
    let mut slots = OperationSlots::empty();
    let token = slots.begin_reload(&mut registry, 1, &a).unwrap();
    assert!(slots.reload_registered() || slots.next_reload.is_some());
    registry.mark_turn_ready(token.operation.unwrap());
    assert!(registry.operation_turn_ready(token.operation.unwrap()));
    assert!(slots.activate_reload(&registry, token));
    assert!(slots.reload_active(&registry));
    slots.set_operation_keys(&mut registry, false, vec![server("/srv")]);
    let keys = slots.reload_keys(&registry).unwrap();
    assert_eq!(keys.len(), 1);
    assert_eq!(keys[0].path, "/srv");
}

#[test]
fn work_is_committed_only_in_turn() {
    let (a, b) = (key("/a", ""), key("/b", ""));
    let mut registry = SharedAnalyzerRegistry::new();
    let mut slots = OperationSlots::empty();
    let idle = slots.operation_token(&registry, 1);
    assert!(slots.operation_token_matches(&registry, 1, idle));
    assert_eq!(slots.commit_operation(&registry, &a, 1, idle), CommitGate::Commit);
    let other = registry.enqueue_operation(b.duplicate());
    assert!(slots.begin_rebuild(&mut registry, &a));
    assert!(!slots.begin_rebuild(&mut registry, &a));
    let token = slots.operation_token(&registry, 1);
    assert!(!slots.operation_ready(&registry, &a));
    assert_eq!(slots.commit_operation(&registry, &a, 1, token), CommitGate::Skip);
    assert!(registry.finish_operation(&b, other, Ok(vec![])));
    assert!(slots.operation_ready(&registry, &a));
    registry.mark_turn_ready(slots.rebuild.unwrap());
    let token = slots.operation_token(&registry, 1);
    assert_eq!(token.operation, slots.rebuild);
    assert_eq!(slots.commit_operation(&registry, &a, 1, token), CommitGate::Commit);
    assert_eq!(slots.commit_operation(&registry, &a, 1, idle), CommitGate::Skip);
    assert!(slots.finish_explicit_operation(&mut registry, &a, ExplicitSlot::Rebuild, Ok(vec![])));
    assert!(!slots.rebuild_registered());
}

#[test]
fn open_operations_are_handed_over() {
    let a = key("/a", "");
    let mut registry = SharedAnalyzerRegistry::new();
    let mut slots = OperationSlots::empty();
    assert!(slots.begin_normal_operation(&mut registry, &a));
    assert!(slots.begin_rebuild(&mut registry, &a));
    let before = slots;
    assert!(slots.finish_normal_operation(&mut registry, &a, Ok(vec![])));
    let mut target = OperationSlots::empty();
    slots.transfer_operations(&mut target, &registry);
    assert_eq!(target.rebuild, before.rebuild);
    assert_eq!(target.normal, None);
    assert!(operation_scope_matches(&a, &a.duplicate()));
    assert!(!operation_scope_matches(&a, &key("/b", "")));
}

#[test]
fn cancelling_gives_everything_up() {
    let a = key("/a", "");
    let mut registry = SharedAnalyzerRegistry::new();
    let mut slots = OperationSlots::empty();
    assert!(slots.begin_rebuild(&mut registry, &a));
    let rebuild = slots.rebuild.unwrap();
    slots.cancel_operations(&mut registry, &a, &"session exited".to_string());
    assert_eq!(slots, OperationSlots::empty());
    assert!(registry.operation_finished(rebuild));
}

#[test]
fn undisturbed_snapshot_is_delivered() {
    let session = RuntimeSession::new(1);
    let token = session.snapshot_token(4, 0);
    assert_eq!(token.outcome(&session, 4, Some(0)), SnapshotOutcome::Deliver);
}

#[test]
fn snapshot_is_taken_again_after_another_session_wrote() {
    let session = RuntimeSession::new(1);
    let token = session.snapshot_token(4, 0);
    assert!(token.replayable(&session, 4, Some(1)));
    assert_eq!(token.outcome(&session, 4, Some(1)), SnapshotOutcome::Retry);
    let next = session.snapshot_token(4, 1);
    assert!(token.can_replay(&session, &next));
    assert!(token.replays_on(&session, 4, Some(1), &next));
    assert!(!next.can_replay(&session, &token));
    assert!(!token.can_replay(&session, &token));
}

#[test]
fn own_edit_ends_a_snapshot() {
    let mut gc = SharedAnalyzerGcState::new();
    let mut session = RuntimeSession::new(1);
    let token = session.snapshot_token(4, 0);
    session.overlay_synced(&mut gc, true);
    assert!(gc.dirty);
    assert_eq!(token.outcome(&session, 4, Some(1)), SnapshotOutcome::Deliver);
    assert!(!token.can_replay(&session, &session.snapshot_token(4, 1)));
    assert!(!token.replayable(&session, 5, Some(1)));
}

#[test]
fn session_notes_what_it_has_seen() {
    let mut gc = SharedAnalyzerGcState::new();
    gc.register_session();
    let mut session = RuntimeSession::new(1);
    assert!(session.config_generation_changed(0));
    assert!(!session.config_generation_changed(0));
    assert!(session.config_generation_changed(1));
    assert!(session.refresh_cache(0));
    assert!(!session.refresh_cache(0));
    assert!(!session.event_handled(&mut gc, true, true, false));
    assert!(session.busy);
    assert!(!session.event_handled(&mut gc, true, true, true));
    assert!(!session.busy);
    gc.changed();
    assert!(!session.set_busy(&mut gc, true));
    assert!(session.retire(&mut gc));
    assert!(!session.active);
}

#[test]
fn leaving_session_gives_up_its_place() {
    let a = key("/a", "");
    let mut registry = SharedAnalyzerRegistry::new();
    let mut slots = OperationSlots::empty();
    let mut gc = SharedAnalyzerGcState::new();
    let mut access = SharedWorldAccess::new();
    gc.register_session();
    registry.world(&a.shared_world);
    registry.retain_world(&a.shared_world);
    registry.register(&a, &analyzed::view::WorkspaceView::new(vec![], vec![]));
    let read = access.read(1).unwrap();
    access.end_read(read);
    let mut session = RuntimeSession::new(1);
    assert!(slots.begin_rebuild(&mut registry, &a));
    let rebuild = slots.rebuild.unwrap();
    session.give_up(&mut slots, &mut registry, &a);
    assert!(!session.active);
    assert!(registry.operation_finished(rebuild));
    assert!(registry.backend_entries().is_empty());
    assert!(!session.close(&mut access, &mut gc));
    assert_eq!(access.foreign_epoch(1), None);
    assert_eq!(gc.busy_sessions, 0);
}
