//! Which sessions share a world, and how they join and leave it.
use analyzed::config::{
    cargo_config_key, shared_analyzer_context_from_config, shared_database_config_key, shared_detached_file_key,
    shared_load_config_from_config, shared_project_key, AnalyzerSettings, CargoSettings, ConfigError, LinkedProject,
    ProcMacroServerChoice, SharedAnalyzerWorkspaceLoadSource,
};
use analyzed::keys::{
    SharedAnalyzerBackendKey, SharedAnalyzerProcMacroServerKey, SharedAnalyzerWorldKey,
};
use analyzed::ordered::{OrderedKey, OrderedMap, Relation};
use analyzed::registry::{take_load_result, LoadStep, SharedAnalyzerRegistry, SharedAnalyzerWorkspaceLoadKey};
use analyzed::tokens::{code, compare, same, sort, sorted_unique, Tokens};
use analyzed::view::WorkspaceView;

fn cargo() -> CargoSettings {
    CargoSettings {
        all_targets: true,
        features: "All".to_string(),
        target: None,
        sysroot: Some("Discover".to_string()),
        sysroot_src: None,
        rustc_source: None,
        extra_includes: vec![],
        cfg_overrides: String::new(),
        wrap_rustc_in_build_scripts: true,
        invocation_strategy: "PerWorkspace".to_string(),
        run_build_script_command: "None".to_string(),
        extra_args: vec![],
        extra_env: vec![],
        target_dir_config: "None".to_string(),
        set_test: true,
        no_deps: false,
        metadata_extra_args: vec![],
    }
}

fn settings() -> AnalyzerSettings {
    AnalyzerSettings {
        excluded: vec![],
        projects: vec![LinkedProject::ProjectManifest("/a/Cargo.toml".to_string())],
        detached_files: vec![],
        cargo: cargo(),
        lru_parse_query_capacity: None,
        lru_query_capacities: None,
        expand_proc_attr_macros: true,
        run_build_scripts: true,
        expand_proc_macros: true,
        proc_macro_srv: None,
        ignored_proc_macros: vec![],
        proc_macro_num_processes: 1,
        prefill_caches: false,
        prime_caches_num_threads: 4,
    }
}

fn backend(settings: AnalyzerSettings) -> SharedAnalyzerBackendKey {
    match shared_analyzer_context_from_config(settings) {
        Ok((key, _)) => key,
        Err(error) => panic!("{error:?}"),
    }
}

fn load_key(world: &SharedAnalyzerWorldKey, project: &str) -> SharedAnalyzerWorkspaceLoadKey {
    SharedAnalyzerWorkspaceLoadKey { world: world.duplicate(), project: project.to_string() }
}

#[test]
fn compatible_sessions_share_a_world() {
    let first = backend(settings());
    let second = backend(AnalyzerSettings {
        projects: vec![LinkedProject::ProjectManifest("/b/Cargo.toml".to_string())],
        excluded: vec!["/b/target".to_string()],
        prime_caches_num_threads: 8,
        ..settings()
    });
    assert!(same(&first.shared_world, &second.shared_world));
    assert!(!same(&first.workspace_view, &second.workspace_view));
    let mut registry = SharedAnalyzerRegistry::new();
    let a = registry.world(&first.shared_world);
    let b = registry.world(&second.shared_world);
    assert_eq!(a, b);
}

#[test]
fn another_cargo_configuration_has_a_world_of_its_own() {
    let first = backend(settings());
    let mut other = settings();
    other.cargo.features = "Selected".to_string();
    let second = backend(other);
    assert!(!same(&first.shared_world, &second.shared_world));
    let mut registry = SharedAnalyzerRegistry::new();
    assert_ne!(registry.world(&first.shared_world), registry.world(&second.shared_world));
}

#[test]
fn another_sysroot_has_a_world_of_its_own() {
    let mut other = settings();
    other.cargo.sysroot = Some("/opt/rust".to_string());
    assert!(!same(&backend(settings()).shared_world, &backend(other).shared_world));
}

#[test]
fn database_settings_separate_worlds() {
    let other = AnalyzerSettings { lru_parse_query_capacity: Some(7), ..settings() };
    assert!(!same(&backend(settings()).shared_world, &backend(other).shared_world));
    let other = AnalyzerSettings { expand_proc_attr_macros: false, ..settings() };
    assert!(!same(&backend(settings()).shared_world, &backend(other).shared_world));
}

#[test]
fn load_settings_separate_worlds() {
    let other = AnalyzerSettings { run_build_scripts: false, ..settings() };
    assert!(!same(&backend(settings()).shared_world, &backend(other).shared_world));
    let other = AnalyzerSettings { expand_proc_macros: false, ..settings() };
    let key = backend(other);
    assert!(matches!(key.shared_world.load.proc_macro_server, SharedAnalyzerProcMacroServerKey::Disabled));
    let other = AnalyzerSettings { proc_macro_srv: Some("/srv".to_string()), ..settings() };
    let key = backend(other);
    assert!(matches!(&key.shared_world.load.proc_macro_server, SharedAnalyzerProcMacroServerKey::Explicit(path) if path == "/srv"));
    assert!(matches!(
        backend(settings()).shared_world.load.proc_macro_server,
        SharedAnalyzerProcMacroServerKey::Sysroot
    ));
}

#[test]
fn view_keys_do_not_depend_on_order() {
    let one = AnalyzerSettings {
        projects: vec![
            LinkedProject::ProjectManifest("/b/Cargo.toml".to_string()),
            LinkedProject::ProjectManifest("/a/Cargo.toml".to_string()),
        ],
        excluded: vec!["/z".to_string(), "/y".to_string(), "/z".to_string()],
        detached_files: vec![Some("/d/x.rs".to_string()), None],
        ..settings()
    };
    let two = AnalyzerSettings {
        projects: vec![
            LinkedProject::ProjectManifest("/a/Cargo.toml".to_string()),
            LinkedProject::ProjectManifest("/b/Cargo.toml".to_string()),
            LinkedProject::ProjectManifest("/b/Cargo.toml".to_string()),
        ],
        excluded: vec!["/y".to_string(), "/z".to_string()],
        detached_files: vec![Some("/d/x.rs".to_string())],
        ..settings()
    };
    let (one, two) = (backend(one), backend(two));
    assert!(same(&one, &two));
    assert_eq!(one.workspace_view.projects, vec!["detached:/d/x.rs", "manifest:/a/Cargo.toml", "manifest:/b/Cargo.toml"]);
    assert_eq!(one.workspace_view.excluded_paths, vec!["/y", "/z"]);
}

#[test]
fn project_keys_tell_the_kind_of_project() {
    assert_eq!(shared_project_key(&LinkedProject::ProjectManifest("/a/Cargo.toml".to_string())), "manifest:/a/Cargo.toml");
    assert_eq!(shared_project_key(&LinkedProject::InlineProjectJson("{}".to_string())), "json:{}");
    assert_eq!(shared_detached_file_key(&"/x.rs".to_string()), "detached:/x.rs");
}

#[test]
fn sources_come_in_the_order_of_the_settings() {
    let wanted = AnalyzerSettings {
        projects: vec![
            LinkedProject::InlineProjectJson("{}".to_string()),
            LinkedProject::ProjectManifest("/a/Cargo.toml".to_string()),
        ],
        detached_files: vec![Some("/d/x.rs".to_string())],
        ..settings()
    };
    let (_, config) = shared_analyzer_context_from_config(wanted).unwrap();
    let sources = config.workspace_sources();
    let keys: Vec<&str> = sources.iter().map(|source| source.0.as_str()).collect();
    assert_eq!(keys, vec!["json:{}", "manifest:/a/Cargo.toml", "detached:/d/x.rs"]);
    assert!(matches!(&sources[0].1, SharedAnalyzerWorkspaceLoadSource::JsonProject(json) if json == "{}"));
    assert!(matches!(&sources[1].1, SharedAnalyzerWorkspaceLoadSource::ManifestProject(path) if path == "/a/Cargo.toml"));
    assert!(matches!(&sources[2].1, SharedAnalyzerWorkspaceLoadSource::DetachedFile(path) if path == "/d/x.rs"));
    assert!(config.excluded_paths().is_empty());
}

#[test]
fn too_many_macro_processes_have_no_key() {
    let most = AnalyzerSettings { proc_macro_num_processes: 65535, ..settings() };
    assert_eq!(shared_load_config_from_config(&most).unwrap().key.proc_macro_processes, 65535);
    let more = AnalyzerSettings { proc_macro_num_processes: 65536, ..settings() };
    assert!(matches!(shared_load_config_from_config(&more), Err(ConfigError::TooManyProcMacroProcesses)));
    assert!(matches!(shared_analyzer_context_from_config(more), Err(ConfigError::TooManyProcMacroProcesses)));
}

#[test]
fn query_capacities_are_kept_by_query() {
    let wanted = AnalyzerSettings {
        lru_parse_query_capacity: Some(3),
        lru_query_capacities: Some(vec![("b".to_string(), 1), ("a".to_string(), 2), ("b".to_string(), 5)]),
        ..settings()
    };
    let key = shared_database_config_key(&wanted);
    assert_eq!(key.lru_parse_query_capacity, Some(3));
    assert_eq!(key.lru_query_capacities, vec![("a".to_string(), 2), ("b".to_string(), 5)]);
    assert!(shared_database_config_key(&settings()).lru_query_capacities.is_empty());
}

#[test]
fn cargo_environment_is_sorted_in_the_key() {
    let mut wanted = cargo();
    wanted.extra_env = vec![("B".to_string(), None), ("A".to_string(), Some("1".to_string()))];
    wanted.extra_args = vec!["--offline".to_string()];
    let key = cargo_config_key(&wanted);
    assert_eq!(key.extra_env, vec![("A".to_string(), Some("1".to_string())), ("B".to_string(), None)]);
    assert_eq!(key.extra_args, vec!["--offline"]);
}

#[test]
fn load_settings_are_handed_on() {
    let wanted = AnalyzerSettings { prefill_caches: true, proc_macro_num_processes: 3, ..settings() };
    let load = shared_load_config_from_config(&wanted).unwrap().to_load_cargo_config();
    assert!(load.load_out_dirs_from_check);
    assert!(matches!(load.with_proc_macro_server, ProcMacroServerChoice::Sysroot));
    assert!(load.prefill_caches);
    assert_eq!(load.num_worker_threads, 4);
    assert_eq!(load.proc_macro_processes, 3);
}

#[test]
fn world_lives_as_long_as_its_sessions() {
    let key = backend(settings());
    let mut registry = SharedAnalyzerRegistry::new();
    let first = registry.world(&key.shared_world);
    registry.retain_world(&key.shared_world);
    registry.register(&key, &WorkspaceView::new(vec![0], vec![]));
    registry.retain_world(&key.shared_world);
    registry.register(&key, &WorkspaceView::new(vec![0], vec![]));
    let entries = registry.backend_entries();
    assert_eq!(entries.len(), 1);
    assert_eq!(entries[0].client_sessions, 2);
    assert_eq!(entries[0].world, first);
    registry.unregister(&key);
    assert_eq!(registry.backend_entries()[0].client_sessions, 1);
    assert_eq!(registry.world(&key.shared_world), first);
    registry.unregister(&key);
    assert!(registry.backend_entries().is_empty());
    assert_ne!(registry.world(&key.shared_world), first);
}

#[test]
fn registration_counts_once() {
    let key = backend(settings());
    let view = WorkspaceView::new(vec![0], vec![]);
    let mut registry = SharedAnalyzerRegistry::new();
    let world = registry.begin_registration(&key);
    assert!(registry.backend_entries().is_empty());
    registry.finish_registration(&key, Some(&view));
    assert_eq!(registry.backend_entries()[0].client_sessions, 1);
    assert_eq!(registry.begin_registration(&key), world);
    registry.finish_registration(&key, Some(&view));
    assert_eq!(registry.backend_entries()[0].client_sessions, 2);
    registry.unregister(&key);
    registry.unregister(&key);
    assert_ne!(registry.world(&key.shared_world), world);
}

#[test]
fn failed_registration_leaves_no_trace() {
    let key = backend(settings());
    let mut registry = SharedAnalyzerRegistry::new();
    let gone = registry.begin_registration(&key);
    registry.finish_registration(&key, None);
    assert_eq!(registry.collection_plan(), (vec![], None));
    let world = registry.begin_registration(&key);
    assert_ne!(world, gone);
    registry.finish_registration(&key, Some(&WorkspaceView::new(vec![0], vec![])));
    assert_eq!(registry.begin_registration(&key), world);
    registry.finish_registration(&key, None);
    assert_eq!(registry.backend_entries()[0].client_sessions, 1);
    assert_eq!(registry.backend_entries()[0].world, world);
    registry.unregister(&key);
    assert_eq!(registry.collection_plan(), (vec![], None));
}

#[test]
fn failed_registration_drops_a_world_without_sessions() {
    let key = backend(settings());
    let mut registry = SharedAnalyzerRegistry::new();
    let idle = registry.world(&key.shared_world);
    assert_eq!(registry.begin_registration(&key), idle);
    registry.finish_registration(&key, None);
    assert_eq!(registry.collection_plan(), (vec![], None));
}

#[test]
fn different_keys_have_different_worlds() {
    let first = backend(settings());
    let second = backend(AnalyzerSettings { run_build_scripts: false, ..settings() });
    let mut registry = SharedAnalyzerRegistry::new();
    let a = registry.begin_registration(&first);
    let b = registry.begin_registration(&second);
    assert_ne!(a, b);
    assert_eq!(registry.world(&first.shared_world), a);
    assert_eq!(registry.world(&second.shared_world), b);
}

#[test]
fn last_world_is_collected_and_the_others_are_cancelled() {
    let mut registry = SharedAnalyzerRegistry::new();
    assert_eq!(registry.collection_plan(), (vec![], None));
    let first = backend(settings());
    let second = backend(AnalyzerSettings { run_build_scripts: false, ..settings() });
    let a = registry.world(&first.shared_world);
    let b = registry.world(&second.shared_world);
    registry.retain_world(&first.shared_world);
    registry.retain_world(&second.shared_world);
    let (cancelled, collected) = registry.collection_plan();
    let mut all = cancelled.clone();
    all.push(collected.unwrap());
    all.sort();
    let mut both = vec![a, b];
    both.sort();
    assert_eq!(all, both);
    assert_eq!(cancelled.len(), 1);
}

#[test]
fn one_session_loads_and_the_others_wait() {
    let key = backend(settings());
    let mut registry = SharedAnalyzerRegistry::new();
    let project = load_key(&key.shared_world, "manifest:/a/Cargo.toml");
    let id = match registry.ensure_workspace_loaded(&project, None) {
        LoadStep::Lead(id) => id,
        step => panic!("{step:?}"),
    };
    assert_eq!(registry.ensure_workspace_loaded(&project, None), LoadStep::Follow(id));
    let other = load_key(&key.shared_world, "manifest:/b/Cargo.toml");
    assert!(matches!(registry.ensure_workspace_loaded(&other, None), LoadStep::Lead(_)));
    assert!(!registry.load_finished(id));
    registry.complete_load(&project, id, Ok(3));
    assert!(registry.load_finished(id));
    assert!(matches!(registry.load_result(id), Some(Ok(3))));
    assert!(matches!(registry.ensure_workspace_loaded(&project, None), LoadStep::Lead(next) if next != id));
}

#[test]
fn loaded_workspace_is_reused() {
    let key = backend(settings());
    let mut registry = SharedAnalyzerRegistry::new();
    let project = load_key(&key.shared_world, "manifest:/a/Cargo.toml");
    assert_eq!(registry.ensure_workspace_loaded(&project, Some(2)), LoadStep::Loaded(2));
    assert!(matches!(registry.ensure_workspace_loaded(&project, None), LoadStep::Lead(_)));
}

#[test]
fn followers_try_again_after_a_failed_load() {
    assert!(matches!(take_load_result(true, Err("no manifest".to_string())), Some(Err(error)) if error == "no manifest"));
    assert!(take_load_result(false, Err("no manifest".to_string())).is_none());
    assert!(matches!(take_load_result(false, Ok(2)), Some(Ok(2))));
}

#[test]
fn explicit_turn_keeps_loads_waiting() {
    let key = backend(settings());
    let mut registry = SharedAnalyzerRegistry::new();
    let project = load_key(&key.shared_world, "manifest:/a/Cargo.toml");
    let operation = registry.enqueue_operation(key.duplicate());
    assert_eq!(registry.ensure_workspace_loaded(&project, None), LoadStep::WaitOperation(operation));
    assert!(registry.finish_operation(&key, operation, Ok(vec![])));
    assert!(matches!(registry.ensure_workspace_loaded(&project, None), LoadStep::Lead(_)));
}

#[test]
fn keys_are_ordered_and_told_apart() {
    let key = backend(settings());
    assert_eq!(key.shared_world.relation(&key.shared_world.duplicate()), Relation::Equal);
    assert_eq!(compare(&"a".to_string(), &"b".to_string()), Relation::Less);
    assert_eq!(compare(&"b".to_string(), &"a".to_string()), Relation::Greater);
    assert_eq!(compare(&None::<String>, &Some(String::new())), Relation::Less);
    assert!(same(&(1u16, true), &(1u16, true)));
    assert!(!same(&(1u16, true), &(1u16, false)));
    assert_ne!(code(&vec!["ab".to_string()]), code(&vec!["a".to_string(), "b".to_string()]));
    assert_eq!(sort(vec!["b".to_string(), "a".to_string(), "b".to_string()]), vec!["a", "b", "b"]);
    assert_eq!(sorted_unique(vec!["b".to_string(), "a".to_string(), "b".to_string()]), vec!["a", "b"]);
}

#[test]
fn maps_list_their_keys_in_order() {
    let mut map: OrderedMap<String, u32> = OrderedMap::new();
    assert!(map.is_empty());
    assert_eq!(map.insert("b".to_string(), 2), None);
    assert_eq!(map.insert("a".to_string(), 1), None);
    assert_eq!(map.insert("b".to_string(), 3), Some(2));
    assert_eq!(map.len(), 2);
    assert_eq!((map.key_at(0).as_str(), *map.value_at(0)), ("a", 1));
    assert_eq!((map.key_at(1).as_str(), *map.value_at(1)), ("b", 3));
    assert_eq!(map.get(&"b".to_string()), Some(&3));
    assert_eq!(map.remove(&"a".to_string()), Some(1));
    assert!(!map.contains_key(&"a".to_string()));
    assert_eq!(map.remove(&"a".to_string()), None);
}

#[test]
fn view_keeps_its_workspaces() {
    let mut view = WorkspaceView::new(vec![2], vec!["/x".to_string()]);
    view.push_workspace(5);
    view.push_workspace(2);
    assert_eq!(view.workspace_indexes(), vec![2, 5, 2]);
    assert_eq!(view.excluded_paths(), &vec!["/x".to_string()]);
    assert_eq!(view.duplicate().workspace_indexes(), vec![2, 5, 2]);
}
