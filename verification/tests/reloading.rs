//! Reloads, rebuilds and build data of a session.
use analyzed::base::{ProcMacroFacts, SharedProcMacroClient};
use analyzed::build_data::{BuildDataScope, InconsistentBuildData, ProjectState};
use analyzed::build_update::{BuildDataUse, WorldUpdate};
use analyzed::changes::{open_documents, modified_rust_files, ChangeKind, ChangedFile, Document, ModifiedRatoml, SessionChanges};
use analyzed::commit::CommitStep;
use analyzed::config::ProcMacroServerChoice;
use analyzed::file_ids::SharedFileIds;
use analyzed::flycheck::{run_flycheck, FlycheckPlan, FlycheckRestart, FlycheckSelection};
use analyzed::keys::{
    SharedAnalyzerBackendKey, SharedAnalyzerCargoConfigKey, SharedAnalyzerDatabaseConfigKey, SharedAnalyzerLoadKey,
    SharedAnalyzerProcMacroServerKey, SharedAnalyzerViewKey, SharedAnalyzerWorldKey,
};
use analyzed::load::{metadata_proc_macro_state, prepare_loaded_workspace, ProcMacroLoadState, WorkspaceLoad};
use analyzed::macros::{BuildOutcome, MacroCommit, SharedProcMacroLoadResponse};
use analyzed::open_files::RatomlFile;
use analyzed::ordered::OrderedMap;
use analyzed::paths::{FilePath, LineEndings};
use analyzed::pools::SharedProcMacroPools;
use analyzed::registry::SharedAnalyzerRegistry;
use analyzed::reload::{commit_build, commit_macros, BuildDataStart, MacroStart};
use analyzed::reload_batch::ReloadServers;
use analyzed::reload_state::{BuildDataResponse, Cause, ClientsEffect, OpQueue, ReloadState, SessionScope};
use analyzed::round::{settings_documents, ChangeRound, RoundEvent, RoundStep};
use analyzed::runtime::SnapshotOutcome;
use analyzed::settings::{config_change_from_ratoml, user_config_text, ChangedSettings, RatomlFileKind};
use analyzed::slots::{CommitGate, OperationSlots};
use analyzed::spawn::{contains_key, proc_macro_spawn_key, push_asked, push_key, SpawnConfig};
use analyzed::spawn_key::ProcMacroSpawnKey;
use analyzed::switching::WorkspaceResponse;
use analyzed::tasks::{answer_request, proc_macros_loaded, saved_document, workspace_file_ids, RequestAnswer};
use analyzed::tokens::Tokens;
use analyzed::world::SharedWorld;
use rustc_hash::FxHashMap;

fn s(text: &str) -> String {
    text.to_string()
}

fn path(text: &str) -> FilePath {
    FilePath { text: s(text), key: s(text) }
}

fn key(project: &str) -> SharedAnalyzerBackendKey {
    SharedAnalyzerBackendKey {
        shared_world: SharedAnalyzerWorldKey {
            cargo: SharedAnalyzerCargoConfigKey {
                all_targets: false,
                features: String::new(),
                target: None,
                sysroot: None,
                sysroot_src: None,
                rustc_source: None,
                extra_includes: vec![],
                cfg_overrides: String::new(),
                wrap_rustc_in_build_scripts: false,
                invocation_strategy: String::new(),
                run_build_script_command: String::new(),
                extra_args: vec![],
                extra_env: vec![],
                target_dir_config: String::new(),
                set_test: false,
                no_deps: false,
                metadata_extra_args: vec![],
            },
            database: SharedAnalyzerDatabaseConfigKey {
                lru_parse_query_capacity: None,
                lru_query_capacities: vec![],
                expand_proc_attr_macros: false,
            },
            load: SharedAnalyzerLoadKey {
                load_out_dirs_from_check: true,
                proc_macro_server: SharedAnalyzerProcMacroServerKey::Sysroot,
                ignored_proc_macros: vec![],
                proc_macro_processes: 1,
            },
        },
        workspace_view: SharedAnalyzerViewKey { projects: vec![s(project)], excluded_paths: vec![] },
    }
}

fn facts() -> ProcMacroFacts {
    ProcMacroFacts {
        sysroot_server: Some(Ok(s("/sysroot/srv"))),
        toolchain: Some(s("1.90.0")),
        cargo_env: Some(vec![(s("CARGO"), s("/bin/cargo"))]),
        sysroot_root: Some(s("/sysroot")),
    }
}

fn spawn_config() -> SpawnConfig {
    SpawnConfig { server: ProcMacroServerChoice::Sysroot, extra_env: vec![], has_rustup_toolchain: false }
}

fn world() -> SharedWorld {
    let mut world = SharedWorld::new();
    let ids = SharedFileIds::new();
    let load = prepare_loaded_workspace(
        s("manifest:/w"),
        WorkspaceLoad {
            root: s("/w"),
            root_key: s("/w"),
            manifest: None,
            packages: 1,
            project: 4,
            facts: facts(),
            source_roots: vec![],
            source_root_parent_map: FxHashMap::default(),
            vfs: vec![],
            file_id_map: FxHashMap::default(),
            file_texts: vec![],
            has_proc_macro_paths: true,
            proc_macros: 0,
            proc_macro_client: None,
        },
        ProcMacroLoadState::NotYetBuilt,
        true,
    );
    match world.commit_workspace(load, &ids) {
        CommitStep::Placed(0, _) => {}
        _ => panic!("the workspace is new"),
    }
    world.finish_workspace_commit(vec![], true, &ids);
    world.register_session(&vec![0]);
    world
}

struct Bench {
    registry: SharedAnalyzerRegistry,
    slots: OperationSlots,
    state: ReloadState,
    world: SharedWorld,
    key: SharedAnalyzerBackendKey,
    indexes: Vec<usize>,
    config: SpawnConfig,
}

impl Bench {
    fn new() -> Bench {
        Bench {
            registry: SharedAnalyzerRegistry::new(),
            slots: OperationSlots::empty(),
            state: ReloadState::new(0),
            world: world(),
            key: key("/w"),
            indexes: vec![0],
            config: spawn_config(),
        }
    }
}


fn loaded(bench: &mut Bench) {
    bench.world.base.workspaces[0].build_data_loaded = true;
    bench.world.base.workspaces[0].proc_macros_loaded = true;
}

#[test]
fn queue_runs_one_stage_at_a_time() {
    let mut queue = OpQueue::new();
    assert_eq!(queue.should_start_op(), None);
    queue.request_op(Cause::ReloadRequest);
    queue.request_op(Cause::RebuildRequest);
    assert!(queue.op_requested());
    assert_eq!(queue.should_start_op(), Some(Cause::RebuildRequest));
    queue.request_op(Cause::ConfigChanged);
    assert_eq!(queue.should_start_op(), None);
    queue.op_completed();
    assert_eq!(queue.should_start_op(), Some(Cause::ConfigChanged));
}

#[test]
fn causes_are_told_in_words() {
    assert_eq!(Cause::ReloadRequest.text("x"), "reload workspace request");
    assert_eq!(Cause::BuildDataStale.text("x"), "shared build-data result became stale");
    assert_eq!(Cause::Given.text("x"), "x");
}

#[test]
fn reload_ends_once_everything_is_there() {
    let mut bench = Bench::new();
    let Bench { registry, slots, state, world, key, indexes, config } = &mut bench;
    let token = {
        let scope = SessionScope { session_id: 1, key, workspace_indexes: indexes, world, config };
        state.handle_workspace_reload(slots, registry, &scope).unwrap()
    };
    assert_eq!(state.take_clients(), ClientsEffect::Clear);
    assert!(!state.handle_shared_reload_ready(slots, registry, token));
    registry.mark_turn_ready(token.operation.unwrap());
    assert!(state.handle_shared_reload_ready(slots, registry, token));
    assert!(state.reload_pending);
    assert_eq!(state.fetch_workspaces_queue.should_start_op(), Some(Cause::ReloadRequest));
    let fetch = state.fetch_workspaces(slots, registry, world, 1, key, Some(key), false);
    assert!(fetch.reload && fetch.continuation.is_some() && !fetch.can_adopt && !fetch.adopted);
    assert_eq!(fetch.reload_id, Some(1));
    assert!(!state.take_wants_to_switch());
    state.workspaces_fetched();
    assert!(state.take_wants_to_switch());
    assert!(!state.take_wants_to_switch());
    let response = WorkspaceResponse {
        reload_id: fetch.reload_id,
        force_crate_graph_reload: false,
        adopted: false,
        loaded: vec![true],
        workspaces: 5,
    };
    assert!(state.is_reload_response(&response));
    let handover = state.take_session(slots, *slots, registry, 1, key, 1, key, &response);
    assert!(!handover.session_changed && !handover.scope_changed);
    world.base.workspaces[0].build_data_loaded = true;
    world.base.workspaces[0].proc_macros_loaded = true;
    let scope = SessionScope { session_id: 1, key, workspace_indexes: indexes, world, config };
    state.begin_switch(slots, registry, &scope, true, true);
    state.finish_switch(slots, registry, &scope, None, false, true);
    state.recreate_crate_graph(slots, registry, &scope, true, true);
    state.advance_reload(slots, registry, &scope);
    assert!(slots.reload.is_none());
    assert!(registry.operation_finished(token.operation.unwrap()));
    assert!(!state.reload_pending);
}

#[test]
fn reload_asks_for_build_data_first() {
    let mut bench = Bench::new();
    let Bench { registry, slots, state, world, key, indexes, config } = &mut bench;
    let scope = SessionScope { session_id: 1, key, workspace_indexes: indexes, world, config };
    let token = state.handle_workspace_reload(slots, registry, &scope).unwrap();
    registry.mark_turn_ready(token.operation.unwrap());
    assert!(state.handle_shared_reload_ready(slots, registry, token));
    state.fetch_workspaces_queue = OpQueue::new();
    assert!(scope.build_data_pending(slots, registry));
    state.advance_reload(slots, registry, &scope);
    assert!(slots.reload.is_some());
    assert!(state.fetch_build_data_queue.op_requested());
}

#[test]
fn second_reload_waits_behind_the_first() {
    let mut bench = Bench::new();
    let Bench { registry, slots, state, world, key, indexes, config } = &mut bench;
    let scope = SessionScope { session_id: 1, key, workspace_indexes: indexes, world, config };
    let first = state.handle_workspace_reload(slots, registry, &scope).unwrap();
    let second = state.handle_workspace_reload(slots, registry, &scope).unwrap();
    assert_ne!(first.operation, second.operation);
    assert_eq!((slots.reload, slots.next_reload), (first.operation, second.operation));
    assert!(state.handle_workspace_reload(slots, registry, &scope).is_none());
}

#[test]
fn rebuild_is_queued_behind_one_under_way() {
    let mut bench = Bench::new();
    let Bench { registry, slots, state, world, key, indexes, config } = &mut bench;
    let scope = SessionScope { session_id: 1, key, workspace_indexes: indexes, world, config };
    state.handle_proc_macros_rebuild(slots, registry, &scope);
    let rebuild = slots.rebuild.unwrap();
    assert!(!state.rebuild_queued);
    state.handle_proc_macros_rebuild(slots, registry, &scope);
    assert!(state.rebuild_queued);
    assert_eq!(slots.rebuild, Some(rebuild));
    assert!(!state.take_notify());
    let waiting = state.take_await_rebuild().unwrap();
    assert_eq!(waiting.operation, Some(rebuild));
    registry.mark_turn_ready(rebuild);
    state.handle_shared_rebuild_ready(slots, registry, 1, waiting);
    assert!(state.rebuild_proc_macros);
    assert_eq!(state.fetch_build_data_queue.should_start_op(), Some(Cause::RebuildRequest));
    assert_eq!(state.fetch_build_data(slots, registry, &scope), BuildDataStart::Fetch);
    assert_eq!(state.rebuilding_proc_macros, Some(1));
}

#[test]
fn fetched_build_data_is_noted() {
    let mut bench = Bench::new();
    let Bench { registry, slots, state, world, key, indexes, config } = &mut bench;
    let scope = SessionScope { session_id: 1, key, workspace_indexes: indexes, world, config };
    state.handle_proc_macros_rebuild(slots, registry, &scope);
    let waiting = state.take_await_rebuild().unwrap();
    registry.mark_turn_ready(slots.rebuild.unwrap());
    state.handle_shared_rebuild_ready(slots, registry, 1, waiting);
    assert!(state.fetch_build_data_queue.should_start_op().is_some());
    assert_eq!(state.fetch_build_data(slots, registry, &scope), BuildDataStart::Fetch);
    let before = *state;
    state.build_data_fetched(9);
    let response = BuildDataResponse { rebuild_id: Some(1), reload: before.build_data_reload, workspaces: 9 };
    assert_eq!(state.build_data_response, Some(response));
    assert!(!state.fetch_build_data_queue.in_progress);
    assert!(state.take_wants_to_switch());
    assert_eq!(state.workspaces, before.workspaces);
    state.use_workspaces(9);
    assert_eq!(state.workspaces, 9);
}

#[test]
fn session_may_come_with_a_reload() {
    let mut bench = Bench::new();
    let Bench { registry, slots, key, .. } = &mut bench;
    assert!(slots.begin_rebuild(registry, key));
    let reload = registry.enqueue_operation(key.duplicate());
    let rebuild = slots.rebuild;
    let mut next = OperationSlots::with_reload(Some(reload));
    slots.transfer_operations(&mut next, registry);
    assert_eq!((next.reload, next.next_reload, next.rebuild, next.normal), (Some(reload), None, rebuild, None));
    assert_eq!(*slots, OperationSlots::empty());
}

#[test]
fn normal_build_data_waits_for_its_turn() {
    let mut bench = Bench::new();
    let other_key = key("/other");
    let other = bench.registry.enqueue_operation(other_key.duplicate());
    let Bench { registry, slots, state, world, key, indexes, config } = &mut bench;
    let scope = SessionScope { session_id: 1, key, workspace_indexes: indexes, world, config };
    state.ask_build_data(Cause::Given);
    state.fetch_build_data_queue.should_start_op();
    let token = match state.fetch_build_data(slots, registry, &scope) {
        BuildDataStart::Wait(token) => token,
        start => panic!("{start:?}"),
    };
    assert_eq!(token.operation, slots.normal);
    assert!(!registry.normal_operation_ready(&key.shared_world, slots.normal.unwrap()));
    assert!(registry.finish_operation(&other_key, other, Ok(vec![])));
    assert!(registry.normal_operation_ready(&key.shared_world, slots.normal.unwrap()));
}

#[test]
fn macros_are_loaded_in_turn() {
    let mut bench = Bench::new();
    loaded(&mut bench);
    bench.world.base.workspaces[0].proc_macros_loaded = false;
    let Bench { registry, slots, state, world, key, indexes, config } = &mut bench;
    let scope = SessionScope { session_id: 1, key, workspace_indexes: indexes, world, config };
    assert!(scope.proc_macros_pending(slots, registry));
    state.ask_macros(Cause::Given);
    state.fetch_proc_macros_queue.should_start_op();
    assert_eq!(state.fetch_proc_macros(slots, registry, &scope), MacroStart::Load);
    let request = world.proc_macro_load_request(indexes, None, None).unwrap();
    assert_eq!(request.workspaces.len(), 1);
    assert_eq!(request.workspaces[0].index, 0);
    let response = SharedProcMacroLoadResponse { generation: request.generation, workspaces: vec![(0, 12)] };
    let (update, applied) = commit_macros(CommitGate::Commit, world, &response);
    assert!(matches!(update, WorldUpdate::Applied) && applied);
    assert_eq!(world.base.workspaces[0].proc_macros, 12);
    let scope = SessionScope { session_id: 1, key, workspace_indexes: indexes, world, config };
    assert!(state.macro_response_current(slots, registry, &scope));
    assert!(!state.take_macros(slots, registry, &scope, &update));
    state.settle_macros(slots, registry, &scope, false, true);
    assert!(!scope.proc_macros_pending(slots, registry));
}

#[test]
fn macros_of_another_generation_are_not_taken() {
    let mut bench = Bench::new();
    let old = SharedProcMacroLoadResponse { generation: 99, workspaces: vec![(0, 12)] };
    assert_eq!(bench.world.commit_proc_macro_load(&old), MacroCommit::Stale);
    let generation = bench.world.workspace_generation;
    let none = SharedProcMacroLoadResponse { generation, workspaces: vec![] };
    assert_eq!(bench.world.commit_proc_macro_load(&none), MacroCommit::Empty);
    let missing = SharedProcMacroLoadResponse { generation, workspaces: vec![(3, 12)] };
    assert_eq!(bench.world.commit_proc_macro_load(&missing), MacroCommit::Missing);
    let (update, applied) = commit_macros(CommitGate::Skip, &mut bench.world, &none);
    assert!(matches!(update, WorldUpdate::Stale) && !applied);
    let (update, _) = commit_macros(CommitGate::Unregistered, &mut bench.world, &none);
    assert!(matches!(update, WorldUpdate::Failed(_)));
}

#[test]
fn configuration_of_another_world_asks_for_workspaces() {
    let one = key("/w");
    let mut other = key("/w");
    other.shared_world.database.expand_proc_attr_macros = true;
    let mut state = ReloadState::new(0);
    state.update_configuration(Some(&one.shared_world), Some(&one.shared_world.duplicate()));
    assert!(!state.fetch_workspaces_queue.op_requested());
    state.update_configuration(Some(&one.shared_world), Some(&other.shared_world));
    assert_eq!(state.fetch_workspaces_queue.requested, Some(Cause::ConfigChanged));
    let mut state = ReloadState::new(0);
    state.update_configuration(None, None);
    assert!(state.fetch_workspaces_queue.op_requested());
}

#[test]
fn workspaces_changed_by_another_session_are_adopted() {
    let mut bench = Bench::new();
    let second = bench.world.register_session(&vec![0]);
    bench.world.notify_workspace_updates(second, &vec![0]);
    bench.state.handle_workspace_updated(true);
    assert_eq!(bench.state.fetch_workspaces_queue.should_start_op(), Some(Cause::WorkspaceUpdated));
    let Bench { registry, slots, state, world, key, .. } = &mut bench;
    let fetch = state.fetch_workspaces(slots, registry, world, 1, key, Some(key), false);
    assert!(fetch.can_adopt && fetch.adopted && fetch.adopts(false));
    let again = state.fetch_workspaces(slots, registry, world, 1, key, Some(key), false);
    assert!(!again.adopted && again.adopts(true) && !again.adopts(false));
    let elsewhere = state.fetch_workspaces(slots, registry, world, 1, key, Some(key), true);
    assert!(!elsewhere.can_adopt);
}

#[test]
fn build_data_is_for_the_workspaces_it_was_fetched_for() {
    let mut state = ReloadState::new(0);
    assert_eq!(state.build_data_use(true), BuildDataUse::Unused);
    state.build_data_response = Some(BuildDataResponse { rebuild_id: None, reload: false, workspaces: 0 });
    state.build_data_response_current = true;
    assert_eq!(state.build_data_use(true), BuildDataUse::Build);
    assert_eq!(state.build_data_use(false), BuildDataUse::Unused);
    state.rebuilding_proc_macros = Some(2);
    assert_eq!(state.build_data_use(true), BuildDataUse::Unused);
    state.build_data_response = Some(BuildDataResponse { rebuild_id: Some(2), reload: false, workspaces: 0 });
    state.rebuild_response_current = Some(2);
    assert_eq!(state.build_data_use(true), BuildDataUse::Rebuild);
}

fn project() -> ProjectState {
    ProjectState { project: 8, facts: facts() }
}

#[test]
fn build_data_is_prepared_and_committed() {
    let mut bench = Bench::new();
    let generation = bench.world.workspace_generation;
    let snapshot = bench
        .world
        .build_data_snapshot(&vec![0], vec![project()], 1, &bench.config, generation, BuildDataScope::Normal)
        .unwrap()
        .unwrap();
    assert_eq!(snapshot.workspaces.len(), 1);
    assert!(snapshot.operation_keys.is_none());
    assert_eq!(snapshot.workspaces[0].project, 8);
    assert_eq!(snapshot.needs_server(), vec![true]);
    let key = proc_macro_spawn_key(&facts(), &bench.config).unwrap().unwrap();
    let outcome = BuildOutcome {
        spawned: Some(Ok(SharedProcMacroClient { key, client: 6 })),
        has_proc_macro_paths: true,
        proc_macros: 30,
        source_root_parent_map: FxHashMap::default(),
    };
    let prepared = snapshot.prepare(vec![outcome], ProcMacroLoadState::NotYetBuilt);
    assert_eq!((prepared.generation, prepared.workspaces.len()), (generation, 1));
    assert!(prepared.operation_keys.is_none());
    let update = commit_build(CommitGate::Commit, &mut bench.world, &bench.slots, &mut bench.registry, prepared);
    assert!(matches!(update, WorldUpdate::Applied));
    assert!(bench.world.base.workspaces[0].build_data_loaded);
    assert_eq!(bench.world.base.workspaces[0].project, 8);
    assert_eq!(bench.world.proc_macro_clients()[0].client, 6);
    assert!(!bench.world.build_data_pending(&vec![0]));
    assert!(bench.world.proc_macros_pending(&vec![0], None, None));
}

#[test]
fn build_data_must_fit_the_workspaces() {
    let bench = Bench::new();
    let generation = bench.world.workspace_generation;
    let late = bench.world.build_data_snapshot(&vec![0], vec![], 5, &bench.config, generation + 1, BuildDataScope::Normal);
    assert!(matches!(late, Ok(None)));
    let wrong = bench.world.build_data_snapshot(&vec![0], vec![], 0, &bench.config, generation, BuildDataScope::Normal);
    assert!(matches!(wrong, Err(InconsistentBuildData)));
    let wrong = bench.world.build_data_snapshot(&vec![0], vec![project()], 2, &bench.config, generation, BuildDataScope::Rebuild);
    assert!(matches!(wrong, Err(InconsistentBuildData)));
    let rebuild = bench
        .world
        .build_data_snapshot(&vec![0], vec![project()], 1, &bench.config, generation, BuildDataScope::Rebuild)
        .unwrap()
        .unwrap();
    assert!(matches!(rebuild.operation_keys, Some((true, ref keys)) if keys.len() == 1));
    assert!(rebuild.rejected().is_empty());
    let outcome = BuildOutcome {
        spawned: None,
        has_proc_macro_paths: false,
        proc_macros: 1,
        source_root_parent_map: FxHashMap::default(),
    };
    let prepared = rebuild.prepare(vec![outcome], ProcMacroLoadState::NotYetBuilt);
    assert!(matches!(prepared.operation_keys, Some((true, ref keys)) if keys.len() == 1));
    assert!(prepared.workspaces[0].proc_macro_client.is_none() && prepared.workspaces[0].proc_macros_loaded);
}

#[test]
fn server_is_chosen_by_the_settings() {
    let key = proc_macro_spawn_key(&facts(), &spawn_config()).unwrap().unwrap();
    assert_eq!(key.path, "/sysroot/srv");
    assert_eq!(key.toolchain, Some(s("1.90.0")));
    assert_eq!(
        key.env,
        vec![(s("CARGO"), Some(s("/bin/cargo"))), (s("RUSTUP_TOOLCHAIN"), Some(s("/sysroot")))]
    );
    let config = SpawnConfig { server: ProcMacroServerChoice::Disabled, ..spawn_config() };
    assert!(proc_macro_spawn_key(&facts(), &config).is_none());
    let config = SpawnConfig {
        server: ProcMacroServerChoice::Explicit(s("/srv")),
        extra_env: vec![(s("RUSTUP_TOOLCHAIN"), None)],
        ..spawn_config()
    };
    let key = proc_macro_spawn_key(&facts(), &config).unwrap().unwrap();
    assert_eq!(key.path, "/srv");
    assert_eq!(key.env[1], (s("RUSTUP_TOOLCHAIN"), None));
    let missing = ProcMacroFacts { sysroot_server: Some(Err(s("not found"))), ..facts() };
    assert!(matches!(proc_macro_spawn_key(&missing, &spawn_config()), Some(Err(error)) if error == "not found"));
    let bare = ProcMacroFacts { sysroot_server: None, ..facts() };
    assert!(proc_macro_spawn_key(&bare, &spawn_config()).is_none());
}

fn server(path: &str) -> ProcMacroSpawnKey {
    ProcMacroSpawnKey { path: s(path), toolchain: None, env: vec![] }
}

#[test]
fn started_server_is_shared() {
    let mut pools = SharedProcMacroPools::new();
    assert_eq!(pools.client(&server("/a"), 1, &vec![], &vec![], &vec![]), None);
    pools.spawned(server("/a"), 1, 4);
    assert_eq!(pools.client(&server("/a"), 1, &vec![4], &vec![], &vec![]), Some(4));
    assert_eq!(pools.client(&server("/a"), 2, &vec![4], &vec![], &vec![]), None);
    assert_eq!(pools.client(&server("/b"), 1, &vec![4], &vec![], &vec![]), None);
    assert_eq!(pools.client(&server("/a"), 1, &vec![4], &vec![4], &vec![]), None);
    assert_eq!(pools.client(&server("/a"), 1, &vec![4], &vec![], &vec![4]), None);
    assert_eq!(pools.client(&server("/a"), 1, &vec![], &vec![], &vec![]), None);
    assert!(pools.entries.is_empty());
}

#[test]
fn shared_server_stays_while_it_lives() {
    let mut pools = SharedProcMacroPools::new();
    pools.spawned(server("/a"), 1, 4);
    pools.spawned(server("/b"), 1, 5);
    assert_eq!(pools.client(&server("/b"), 1, &vec![4, 5], &vec![], &vec![]), Some(5));
    assert_eq!(pools.client(&server("/a"), 1, &vec![4, 5], &vec![5], &vec![]), Some(4));
    pools.spawned(server("/a"), 1, 6);
    assert_eq!(pools.client(&server("/a"), 1, &vec![4, 5, 6], &vec![], &vec![]), Some(6));
    assert_eq!(pools.client(&server("/b"), 1, &vec![5, 6], &vec![], &vec![4]), Some(5));
}

#[test]
fn keys_are_listed_once() {
    let mut keys = vec![];
    push_key(&mut keys, server("/a"));
    push_key(&mut keys, server("/a"));
    push_asked(&mut keys, Some(Ok(server("/b"))));
    push_asked(&mut keys, Some(Err(s("not found"))));
    push_asked(&mut keys, None);
    assert_eq!(keys.len(), 2);
    assert!(contains_key(&keys, &server("/b")) && !contains_key(&keys, &server("/c")));
}

#[test]
fn reload_starts_servers_anew() {
    let clients = vec![
        SharedProcMacroClient { key: server("/a"), client: 1 },
        SharedProcMacroClient { key: server("/b"), client: 2 },
    ];
    let mut servers = ReloadServers::new(vec![server("/a")], &clients);
    assert_eq!(servers.rejected, vec![1]);
    servers.join(Some(Ok(server("/b"))), &clients);
    servers.join(Some(Ok(server("/b"))), &clients);
    servers.join(None, &clients);
    assert_eq!(servers.rejected, vec![1, 2]);
    assert_eq!(servers.keys.len(), 2);
}

#[test]
fn reload_turn_is_continued() {
    let mut registry = SharedAnalyzerRegistry::new();
    let one = key("/w");
    let first = registry.begin_reload_workspaces(&one, None);
    assert!(!first.continued);
    let token = analyzed::operations::SharedAnalyzerOperationToken {
        session_id: 1,
        operation: Some(first.operation),
        generation: registry.operation_generation(first.operation),
    };
    let again = registry.begin_reload_workspaces(&one, Some(token));
    assert!(again.continued);
    assert_eq!(again.operation, first.operation);
    assert_eq!(registry.finish_reload_workspaces(&one, again, Some(s("no manifest"))), None);
    assert!(!registry.operation_finished(first.operation));
    assert_eq!(registry.finish_reload_workspaces(&one, again, None), None);
    assert_eq!(registry.finish_reload_workspaces(&one, first, None), Some(first.operation));
    assert_eq!(registry.finish_reload_workspaces(&one, first, Some(s("no manifest"))), None);
    assert!(registry.operation_finished(first.operation));
}

#[test]
fn macro_state_follows_the_settings() {
    assert_eq!(metadata_proc_macro_state(&SharedAnalyzerProcMacroServerKey::Disabled), ProcMacroLoadState::Disabled);
    assert_eq!(metadata_proc_macro_state(&SharedAnalyzerProcMacroServerKey::Sysroot), ProcMacroLoadState::NotYetBuilt);
    assert!(proc_macros_loaded(false, None));
    assert!(proc_macros_loaded(true, Some(true)));
    assert!(!proc_macros_loaded(true, Some(false)) && !proc_macros_loaded(true, None));
}

fn changed(name: &str, kind: ChangeKind, bytes: &[u8]) -> ChangedFile {
    ChangedFile {
        file: 3,
        path: path(name),
        on_disk: true,
        kind,
        bytes: bytes.to_vec(),
        in_crate_graph: true,
        refreshes: false,
        open: false,
        classified: vec![true],
    }
}

#[test]
fn changed_files_are_sorted_out() {
    let bench = Bench::new();
    let mappings = bench.world.session_file_mappings(1, &vec![0]);
    let mut endings = OrderedMap::new();
    let open = ChangedFile { open: true, ..changed("/w/open.rs", ChangeKind::Modify, b"x") };
    let changes = SessionChanges::collect(
        vec![
            changed("/w/a.rs", ChangeKind::Modify, b"a\r\n"),
            open,
            changed("/w/new.rs", ChangeKind::Create, b"n"),
            changed("/w/rust-analyzer.toml", ChangeKind::Modify, b"x = 1"),
        ],
        &mut endings,
        &mappings,
    );
    assert!(changes.changed);
    let told: Vec<&str> = changes.base.iter().map(|file| file.path.text.as_str()).collect();
    assert_eq!(told, vec!["/w/a.rs", "/w/new.rs", "/w/rust-analyzer.toml"]);
    assert_eq!(changes.base[0].text, Some(s("a\n")));
    assert_eq!(changes.base[0].line_endings, Some(LineEndings::Dos));
    assert!(matches!(&changes.structure, Some((at, true)) if at.text == "/w/new.rs"));
    assert_eq!(changes.modified_ratoml_files[0].text, Some(s("x = 1")));
    assert_eq!(endings.get(&3), Some(&LineEndings::Unix));
    let nothing = SessionChanges::collect(vec![], &mut endings, &mappings);
    assert!(!nothing.changed && nothing.structure.is_none());
}

#[test]
fn text_documents_are_opened() {
    let doc = |name: &str, data: &[u8]| Document {
        path: path(name),
        on_disk: true,
        data: data.to_vec(),
        classified: vec![Some(false)],
    };
    let files = open_documents(vec![doc("/a.rs", b"a\r\n"), doc("/lib.rs", b"b"), doc("/bin", &[0xff])]);
    assert_eq!(files.len(), 2);
    assert_eq!((files[1].path.text.as_str(), files[1].text.as_str()), ("/lib.rs", "b"));
    assert_eq!((files[0].text.as_str(), files[0].line_endings), ("a\n", LineEndings::Dos));
    let bench = Bench::new();
    let mappings = bench.world.session_file_mappings(1, &vec![0]);
    assert!(modified_rust_files(&vec![(path("/a.rs"), true)], &mappings).is_empty());
}

#[test]
fn smallest_path_decides_the_settings() {
    let seen = |name: &str, root: u32, text: &str| RatomlFile { path: path(name), source_root: root, is_library: false, text: s(text) };
    let change = config_change_from_ratoml(
        &vec![
            ChangedSettings {
                file: ModifiedRatoml { kind: ChangeKind::Modify, path: path("/home/rust-analyzer.toml"), text: Some(s("user")) },
                user: true,
                root: None,
            },
        ],
        &vec![seen("/w/b/rust-analyzer.toml", 0, "b"), seen("/w/a/rust-analyzer.toml", 0, "a"), seen("/w/rust-analyzer.toml", 1, "w")],
        None,
        &vec![s("/w/rust-analyzer.toml")],
        FxHashMap::default(),
    );
    let first = change.ratoml.get(&0).unwrap();
    assert_eq!((first.kind, first.path.text.as_str(), first.text.clone()), (RatomlFileKind::Crate, "/w/a/rust-analyzer.toml", Some(s("a"))));
    assert_eq!(change.ratoml.get(&1).unwrap().kind, RatomlFileKind::Workspace);
    assert_eq!(change.user_config, Some(Some(s("user"))));
}

#[test]
fn checks_run_for_files_of_the_session() {
    assert_eq!(run_flycheck(None, Some(1), true), FlycheckPlan::Skip);
    assert_eq!(run_flycheck(Some(1), None, true), FlycheckPlan::Skip);
    assert_eq!(run_flycheck(Some(1), Some(2), true), FlycheckPlan::Once);
    assert_eq!(run_flycheck(Some(1), Some(2), false), FlycheckPlan::PerWorkspace(2));
}

#[test]
fn checks_start_only_after_the_selection_stands() {
    let select = || {
        let mut selection = FlycheckSelection::new(vec![10, 11]);
        assert_eq!((selection.id(1), selection.id(2)), (Some(11), None));
        selection.restart_workspace(1, Some(s("/w/a.rs")));
        selection.restart_for_package(0, s("p"), None, None, None);
        selection
    };
    let started = select().execute(SnapshotOutcome::Deliver, false);
    assert_eq!(started.len(), 2);
    assert!(matches!(&started[0], FlycheckRestart::Workspace { handle: 1, saved_file: Some(file) } if file == "/w/a.rs"));
    assert!(matches!(&started[1], FlycheckRestart::Package { handle: 0, package, .. } if package == "p"));
    assert!(select().execute(SnapshotOutcome::Retry, false).is_empty());
    assert!(select().execute(SnapshotOutcome::Deliver, true).is_empty());
}

#[test]
fn cancelled_requests_are_tried_again() {
    assert_eq!(answer_request(false, false, 1, 2), RequestAnswer::Reply);
    assert_eq!(answer_request(true, true, 1, 2), RequestAnswer::Retry);
    assert_eq!(answer_request(true, false, 1, 1), RequestAnswer::Retry);
    assert_eq!(answer_request(true, false, 1, 2), RequestAnswer::Refuse);
}

#[test]
fn library_files_are_not_looked_through() {
    assert_eq!(workspace_file_ids(&vec![1, 2, 3], &vec![Some(false), Some(true), None]), vec![1]);
}

#[test]
fn text_is_saved_for_others() {
    assert!(saved_document(path("/a"), None, vec![]).is_none());
    assert!(saved_document(path("/a"), Some(vec![0xff]), vec![]).is_none());
    let change = saved_document(path("/a"), Some(b"x\r\n".to_vec()), vec![true]).unwrap();
    assert!(change.exists);
    assert_eq!((change.text, change.line_endings), (Some(s("x\n")), Some(LineEndings::Dos)));
}

#[test]
fn generations_follow_the_database() {
    let mut world = world();
    let ids = SharedFileIds::new();
    let before = (world.input_generation, world.workspace_generation);
    world.finish_workspace_commit(vec![], false, &ids);
    assert_eq!((world.input_generation, world.workspace_generation), before);
    world.finish_workspace_commit(vec![], true, &ids);
    assert_eq!((world.input_generation, world.workspace_generation), (before.0 + 1, before.1 + 1));
}

#[test]
fn rebuild_survives_another_key() {
    let mut bench = Bench::new();
    let Bench { registry, slots, state, world, key: own, indexes, config } = &mut bench;
    {
        let scope = SessionScope { session_id: 1, key: own, workspace_indexes: indexes, world, config };
        state.handle_proc_macros_rebuild(slots, registry, &scope);
    }
    let first = slots.rebuild.unwrap();
    let next = key("/moved");
    let response =
        WorkspaceResponse { reload_id: None, force_crate_graph_reload: false, adopted: false, loaded: vec![true], workspaces: 6 };
    let handover = state.take_session(slots, OperationSlots::empty(), registry, 1, own, 2, &next, &response);
    assert!(handover.session_changed && handover.scope_changed);
    assert!(registry.operation_finished(first));
    assert!(state.rebuild_queued);
    let scope = SessionScope { session_id: 2, key: &next, workspace_indexes: indexes, world, config };
    state.start_queued_rebuild(slots, registry, &scope);
    assert!(slots.rebuild.is_some() && slots.rebuild != Some(first));
}

#[test]
fn servers_are_listed_at_rest() {
    let mut bench = Bench::new();
    bench.state.refresh_proc_macro_clients(&bench.slots);
    assert_eq!(bench.state.take_clients(), ClientsEffect::Refresh);
    bench.state.reload_pending = true;
    bench.state.refresh_proc_macro_clients(&bench.slots);
    assert_eq!(bench.state.take_clients(), ClientsEffect::Keep);
    bench.state.reload_pending = false;
    bench.slots.rebuild = Some(0);
    bench.state.refresh_proc_macro_clients(&bench.slots);
    assert_eq!(bench.state.take_clients(), ClientsEffect::Keep);
}

#[test]
fn same_facts_share_a_server() {
    let config = SpawnConfig { has_rustup_toolchain: true, ..spawn_config() };
    let other = ProcMacroFacts { sysroot_root: Some(s("/elsewhere")), ..facts() };
    let (a, b) = (proc_macro_spawn_key(&facts(), &config), proc_macro_spawn_key(&other, &config));
    assert!(analyzed::tokens::same(&a.unwrap().unwrap(), &b.unwrap().unwrap()));
    let (a, b) = (proc_macro_spawn_key(&facts(), &spawn_config()), proc_macro_spawn_key(&other, &spawn_config()));
    assert!(!analyzed::tokens::same(&a.unwrap().unwrap(), &b.unwrap().unwrap()));
}

#[test]
fn stale_build_data_is_fetched_again() {
    let mut bench = Bench::new();
    let Bench { registry, slots, state, world, key, indexes, config } = &mut bench;
    let scope = SessionScope { session_id: 1, key, workspace_indexes: indexes, world, config };
    state.ask_build_data(Cause::Given);
    assert_eq!(state.fetch_build_data_queue.should_start_op(), Some(Cause::Given));
    assert_eq!(state.fetch_build_data(slots, registry, &scope), BuildDataStart::Fetch);
    state.fetch_build_data_queue.op_completed();
    state.build_data_response = Some(BuildDataResponse { rebuild_id: None, reload: false, workspaces: 0 });
    state.build_data_response_current = true;
    state.set_proc_macro_clients(slots, registry, &scope, true, true, &WorldUpdate::Stale);
    assert_eq!(state.fetch_build_data_queue.requested, Some(Cause::BuildDataStale));
}

#[test]
fn round_of_changes_goes_step_by_step() {
    let bench = Bench::new();
    let mappings = bench.world.session_file_mappings(1, &vec![0]);
    let mut endings = OrderedMap::new();
    let nothing = SessionChanges::collect(vec![], &mut endings, &mappings);
    let mut round = ChangeRound::begin(&nothing, false, true);
    assert_eq!(
        round.process_shared_changes(RoundEvent::Applied { generation_changed: true }),
        RoundStep::Finish { changed: false, fetch: false }
    );
    let mut round = ChangeRound::begin(&nothing, true, true);
    assert_eq!(
        round.process_shared_changes(RoundEvent::Applied { generation_changed: false }),
        RoundStep::Sync { force_rebuild: true }
    );
    assert_eq!(round.process_shared_changes(RoundEvent::Synced { changed: false }), RoundStep::Configure);
    assert_eq!(round.process_shared_changes(RoundEvent::Configured), RoundStep::CheckMacroSources);
    assert_eq!(round.process_shared_changes(RoundEvent::Checked), RoundStep::Finish { changed: true, fetch: false });
    let some = SessionChanges::collect(vec![changed("/w/new.rs", ChangeKind::Create, b"n")], &mut endings, &mappings);
    let mut round = ChangeRound::begin(&some, false, true);
    assert_eq!(
        round.process_shared_changes(RoundEvent::Applied { generation_changed: false }),
        RoundStep::Sync { force_rebuild: false }
    );
    assert_eq!(
        round.process_shared_changes(RoundEvent::Synced { changed: true }),
        RoundStep::Finish { changed: true, fetch: true }
    );
    let mut round = ChangeRound::begin(&some, false, true);
    assert_eq!(round.process_shared_changes(RoundEvent::Failed), RoundStep::Finish { changed: false, fetch: false });
}

#[test]
fn open_settings_are_read_as_the_editor_has_them() {
    let bench = Bench::new();
    let doc = |name: &str, data: &[u8]| Document {
        path: path(name),
        on_disk: true,
        data: data.to_vec(),
        classified: vec![None],
    };
    let files = settings_documents(
        &bench.world.base,
        &vec![0],
        vec![doc("/w/rust-analyzer.toml", b"a"), doc("/w/a.rs", b"b"), doc("/w/rust-analyzer.toml", &[0xff])],
    );
    assert!(files.is_empty());
}

#[test]
fn open_settings_of_the_user_win() {
    assert_eq!(user_config_text(Some(b"open".to_vec()), Some(s("disk"))), Some(s("open")));
    assert_eq!(user_config_text(Some(vec![0xff]), Some(s("disk"))), Some(s("disk")));
    assert_eq!(user_config_text(None, None), None);
}
