//! A world that two sessions share: what each sees, edits and saves.
use analyzed::analysis::SharedAnalysisCache;
use analyzed::base::{ProcMacroFacts, SharedProcMacroClient};
use analyzed::changes::{ChangeKind, Document, ModifiedRatoml};
use analyzed::commit::{CommitStep, WorkspaceRoots};
use analyzed::config::ProcMacroServerChoice;
use analyzed::disk::SharedBaseFileChange;
use analyzed::disk_roots::NewRoots;
use analyzed::file_ids::{SharedBaseFileIds, SharedFileIds, MAX_ANALYZED_FILE_ID};
use analyzed::files::{LoadedFile, LoadedWorkspaceFiles};
use analyzed::gc::SharedAnalyzerGcState;
use analyzed::inputs::{AnalysisInputs, CrateData, Durability, SourceRoot};
use analyzed::load::{prepare_loaded_workspace, ProcMacroLoadState, PreparedWorkspaceLoad, WorkspaceLoad};
use analyzed::ordered::OrderedMap;
use analyzed::overlay_files::OpenFile;
use analyzed::packages::{NotInterned, PackageInstanceKey, PackageInstances};
use analyzed::paths::{FilePath, LineEndings};
use analyzed::recone::{Classification, OutOfFileNumbers};
use analyzed::registry::{BackendEntry, SharedAnalyzerRegistry};
use analyzed::reconfigure::SettingsChange;
use analyzed::round::settings_documents;
use analyzed::runtime::RuntimeSession;
use analyzed::session_overlay::{ConeError, SessionOverlay, SessionOverlayCrate, SessionOverlayFile};
use analyzed::snapshots::{BackendSnapshotState, WorldSight};
use analyzed::settings::{ConfigChange, RatomlFileKind};
use analyzed::spawn::SpawnConfig;
use analyzed::spawn_key::ProcMacroSpawnKey;
use analyzed::tasks::{document_files, saved_document};
use analyzed::view::WorkspaceView;
use analyzed::world::SharedWorld;
use rustc_hash::{FxHashMap, FxHashSet};

const LIB: &str = "/w/src/lib.rs";
const PART: &str = "/w/src/part.rs";
const DEP: &str = "/dep/lib.rs";

struct Shared {
    world: SharedWorld,
    ids: SharedFileIds,
}

fn s(text: &str) -> String {
    text.to_string()
}

fn path(text: &str) -> FilePath {
    FilePath { text: s(text), key: s(text) }
}

fn facts() -> ProcMacroFacts {
    ProcMacroFacts { sysroot_server: None, toolchain: None, cargo_env: None, sysroot_root: None }
}

fn root(is_library: bool, files: &[(u32, &str)]) -> SourceRoot {
    let mut map = OrderedMap::new();
    for (file, text) in files {
        map.insert(*file, path(text));
    }
    SourceRoot { is_library, files: map }
}

fn load(shared: &mut Shared, key: &str, roots: &[(bool, &[(&str, &str)])]) -> PreparedWorkspaceLoad {
    let mut source_roots = vec![];
    let mut vfs = vec![];
    let mut numbers = FxHashMap::default();
    let mut texts = vec![];
    for (is_library, files) in roots {
        let mut map = OrderedMap::new();
        for (name, text) in files.iter() {
            let number = shared.world.base_file_ids.resolve(&s(name), &mut shared.ids);
            let old = 100 + vfs.len() as u32;
            vfs.push(LoadedFile { file: old, path: path(name), exists: true });
            numbers.insert(old, number);
            texts.push((number, s(text)));
            map.insert(number, path(name));
        }
        source_roots.push(SourceRoot { is_library: *is_library, files: map });
    }
    prepare_loaded_workspace(
        s(key),
        WorkspaceLoad {
            root: s("/w"),
            root_key: s("/w"),
            manifest: Some(s("/w/Cargo.toml")),
            packages: 2,
            project: 7,
            facts: facts(),
            source_roots,
            source_root_parent_map: FxHashMap::default(),
            vfs,
            file_id_map: numbers,
            file_texts: texts,
            has_proc_macro_paths: false,
            proc_macros: 0,
            proc_macro_client: None,
        },
        ProcMacroLoadState::Ready,
        false,
    )
}

fn crates(shared: &Shared) -> Vec<CrateData> {
    let lib = shared.number(LIB);
    let dep = shared.number(DEP);
    vec![
        CrateData { id: 20, root_file: dep, dependencies: vec![], transitive_rev_deps: vec![dep, lib] },
        CrateData { id: 10, root_file: lib, dependencies: vec![20], transitive_rev_deps: vec![lib] },
    ]
}

impl Shared {
    fn new() -> Shared {
        let mut shared = Shared { world: SharedWorld::new(), ids: SharedFileIds::new() };
        let prepared = load(
            &mut shared,
            "manifest:/w/Cargo.toml",
            &[(false, &[(LIB, "mod part;\n"), (PART, "fn f() {}\n")]), (true, &[(DEP, "pub fn g() {}\n")])],
        );
        match shared.world.commit_workspace(prepared, &shared.ids) {
            CommitStep::Placed(index, inputs) => {
                assert_eq!(index, 0);
                assert_eq!(inputs.texts.len(), 3);
                assert!(inputs.roots.local_roots_changed && inputs.roots.library_roots_changed);
            }
            CommitStep::Known(_) => panic!("a new workspace is not known"),
        }
        let found = crates(&shared);
        shared.world.finish_workspace_commit(found, true, &shared.ids);
        assert_eq!(shared.world.register_session(&vec![0]), 1);
        assert_eq!(shared.world.register_session(&vec![0]), 2);
        shared
    }

    fn number(&self, name: &str) -> u32 {
        self.world.base.base_file(&vec![0], &s(name)).unwrap()
    }

    fn open(&mut self, session: u64, files: &[(&str, &str)]) -> bool {
        let files: Vec<OpenFile> = files
            .iter()
            .map(|(name, text)| OpenFile {
                path: path(name),
                text: s(text),
                line_endings: LineEndings::Unix,
                classified: vec![Some(false)],
            })
            .collect();
        let (sync, texts) = self.world.sync_open_files(session, &vec![0], &files, false, &mut self.ids).unwrap();
        self.world.base.inputs.set_texts(&texts);
        sync.changed
    }

    fn seen_number(&self, session: u64, name: &str) -> u32 {
        self.world.session_file_mappings(session, &vec![0]).file_id(&path(name)).unwrap()
    }

    fn seen(&self, session: u64, name: &str) -> String {
        self.world.base.inputs.texts.get(&self.seen_number(session, name)).unwrap().clone()
    }
}

fn classes(names: &[&str]) -> Classification {
    let mut by_path = OrderedMap::new();
    for name in names {
        by_path.insert(s(name), vec![Some(false)]);
    }
    Classification { by_path }
}

#[test]
fn loaded_workspace_shows_the_disk() {
    let shared = Shared::new();
    assert_eq!(shared.seen(1, PART), "fn f() {}\n");
    assert_eq!(shared.seen(1, DEP), "pub fn g() {}\n");
    assert_eq!(shared.seen_number(1, PART), shared.seen_number(2, PART));
    assert_eq!(shared.world.workspace_index(&s("manifest:/w/Cargo.toml")), Some(0));
    let summary = shared.world.workspace_summary(0).unwrap();
    assert_eq!((summary.root.as_str(), summary.manifest.as_str(), summary.packages, summary.files), ("/w", "/w/Cargo.toml", 2, 3));
    assert!(shared.world.workspace_summary(1).is_none());
}

#[test]
fn workspace_that_is_known_stays() {
    let mut shared = Shared::new();
    let again = load(&mut shared, "manifest:/w/Cargo.toml", &[(false, &[(LIB, "other")])]);
    assert!(matches!(shared.world.commit_workspace(again, &shared.ids), CommitStep::Known(0)));
    assert_eq!(shared.seen(1, LIB), "mod part;\n");
}

#[test]
fn edits_are_private() {
    let mut shared = Shared::new();
    assert!(shared.open(1, &[(PART, "fn f() { g(); }\n")]));
    assert_eq!(shared.seen(1, PART), "fn f() { g(); }\n");
    assert_eq!(shared.seen(2, PART), "fn f() {}\n");
    assert_ne!(shared.seen_number(1, PART), shared.seen_number(2, PART));
    assert_eq!(shared.seen(1, LIB), "mod part;\n");
    assert_eq!(shared.seen_number(1, DEP), shared.seen_number(2, DEP));
    assert_eq!(shared.world.overlay_files(), Some(2));
}

#[test]
fn both_sessions_may_edit_one_file() {
    let mut shared = Shared::new();
    shared.open(1, &[(PART, "one")]);
    shared.open(2, &[(PART, "two")]);
    assert_eq!(shared.seen(1, PART), "one");
    assert_eq!(shared.seen(2, PART), "two");
    shared.open(1, &[(PART, "three")]);
    assert_eq!(shared.seen(1, PART), "three");
    assert_eq!(shared.seen(2, PART), "two");
}

#[test]
fn typing_goes_straight_to_the_database() {
    let mut shared = Shared::new();
    shared.open(1, &[(PART, "a")]);
    let number = shared.seen_number(1, PART);
    assert!(shared.open(1, &[(PART, "ab")]));
    assert_eq!(shared.seen_number(1, PART), number);
    assert_eq!(shared.seen(1, PART), "ab");
    assert!(!shared.open(1, &[(PART, "ab")]));
}

#[test]
fn unchanged_documents_need_no_overlay() {
    let mut shared = Shared::new();
    assert!(!shared.open(1, &[(PART, "fn f() {}\n")]));
    assert_eq!(shared.world.overlay_files(), Some(0));
    assert_eq!(shared.seen_number(1, PART), shared.number(PART));
}

#[test]
fn closing_a_file_shows_the_disk_again() {
    let mut shared = Shared::new();
    shared.open(1, &[(PART, "edited")]);
    assert!(shared.open(1, &[]));
    assert_eq!(shared.seen(1, PART), "fn f() {}\n");
}

#[test]
fn new_file_is_seen_by_its_session_only() {
    let mut shared = Shared::new();
    shared.open(1, &[("/w/src/new.rs", "fn n() {}")]);
    assert_eq!(shared.seen(1, "/w/src/new.rs"), "fn n() {}");
    let other = shared.world.session_file_mappings(2, &vec![0]);
    assert!(other.file_id(&path("/w/src/new.rs")).is_none());
}

#[test]
fn overlaid_crate_has_nodes_of_its_own() {
    let mut shared = Shared::new();
    let files = vec![OpenFile { path: path(LIB), text: s("x"), line_endings: LineEndings::Unix, classified: vec![Some(false)] }];
    let (sync, _) = shared.world.sync_open_files(1, &vec![0], &files, false, &mut shared.ids).unwrap();
    let graph = sync.change.unwrap().graph;
    assert_eq!(graph.nodes.len(), 3);
    assert_eq!(graph.nodes[2].krate, 10);
    assert_eq!(graph.nodes[2].session, Some(1));
    assert_eq!(graph.nodes[2].root_file, shared.seen_number(1, LIB));
    assert!(graph.edges.iter().any(|edge| edge.from == 2 && edge.to == 0));
    assert!(graph.edges.iter().any(|edge| edge.from == 1 && edge.to == 0));
    assert!(!graph.edges.iter().any(|edge| edge.from == 1 && edge.to == 2));
}

#[test]
fn visible_roots_follow_the_overlay() {
    let mut shared = Shared::new();
    let before = shared.world.session_visible_crate_roots(1, &vec![0], &vec![]);
    assert!(before.contains(&shared.number(LIB)) && before.contains(&shared.number(DEP)));
    shared.open(1, &[(LIB, "x")]);
    let after = shared.world.session_visible_crate_roots(1, &vec![0], &vec![]);
    assert!(!after.contains(&shared.number(LIB)));
    assert!(after.contains(&shared.seen_number(1, LIB)));
    let other = shared.world.session_visible_crate_roots(2, &vec![0], &vec![]);
    assert_eq!(other, before);
    let excluded = shared.world.session_visible_crate_roots(2, &vec![0], &vec![s("/dep")]);
    assert!(!excluded.contains(&shared.number(DEP)));
    assert!(shared.world.file_is_excluded(shared.number(DEP), &vec![s("/dep")]));
    assert!(!shared.world.file_is_excluded(shared.number(LIB), &vec![s("/dep")]));
}

#[test]
fn primed_crates_are_found_by_path() {
    let mut shared = Shared::new();
    shared.open(1, &[(LIB, "x")]);
    let overlaid = shared.seen_number(1, LIB);
    let all = vec![(20, shared.number(DEP)), (10, shared.number(LIB)), (11, overlaid)];
    let roots = shared.world.priming_roots(1, &vec![0], &vec![], &all);
    assert_eq!(roots.get(&s(LIB)), Some(&vec![11]));
    assert_eq!(roots.get(&s(DEP)), Some(&vec![20]));
    let roots = shared.world.priming_roots(2, &vec![0], &vec![], &all);
    assert_eq!(roots.get(&s(LIB)), Some(&vec![10]));
}

#[test]
fn saved_file_is_seen_by_all() {
    let mut shared = Shared::new();
    shared.open(1, &[(PART, "saved\n")]);
    let change = saved_document(path(PART), Some(b"saved\n".to_vec()), vec![true]).unwrap();
    let noted = shared.world.note_file_changes(&vec![0], &vec![change], &mut shared.ids).unwrap();
    assert_eq!(noted.texts, vec![(shared.number(PART), Some(s("saved\n")))]);
    assert!(!noted.endings_changed);
    assert_eq!(noted.affected, vec![0]);
    let lib = shared.number(LIB);
    let part = shared.number(PART);
    let dep = shared.number(DEP);
    let roots = vec![root(false, &[(lib, LIB), (part, PART)]), root(true, &[(dep, DEP)])];
    let same = NewRoots { workspace: 0, roots, parents: FxHashMap::default() };
    let disk = shared.world.set_workspace_roots(noted, vec![same], &shared.ids);
    assert!(disk.roots.is_none());
    shared.world.finish_file_changes(false, true, &classes(&[PART]), &mut shared.ids).unwrap();
    assert_eq!(shared.seen(2, PART), "saved\n");
    shared.open(1, &[(PART, "saved\n")]);
    assert_eq!(shared.seen_number(1, PART), shared.number(PART));
    let endings = shared.world.session_line_endings(2, &vec![0]);
    assert_eq!(endings.get(shared.number(PART)), Some(LineEndings::Unix));
}

fn save(shared: &mut Shared, name: &str, text: &str, texts_of: &[&str]) {
    let change = saved_document(path(name), Some(text.as_bytes().to_vec()), vec![true]).unwrap();
    let noted = shared.world.note_file_changes(&vec![0], &vec![change], &mut shared.ids).unwrap();
    let lib = shared.number(LIB);
    let part = shared.number(PART);
    let dep = shared.number(DEP);
    let roots = vec![root(false, &[(lib, LIB), (part, PART)]), root(true, &[(dep, DEP)])];
    let same = NewRoots { workspace: 0, roots, parents: FxHashMap::default() };
    shared.world.set_workspace_roots(noted, vec![same], &shared.ids);
    shared.world.finish_file_changes(false, true, &classes(texts_of), &mut shared.ids).unwrap();
}

#[test]
fn saved_library_file_is_private_until_it_is_saved() {
    let mut shared = Shared::new();
    shared.open(1, &[(DEP, "pub fn h() {}\n")]);
    assert_eq!(shared.seen(1, DEP), "pub fn h() {}\n");
    assert_eq!(shared.seen(2, DEP), "pub fn g() {}\n");
    save(&mut shared, DEP, "pub fn h() {}\n", &[DEP]);
    assert_eq!(shared.seen(2, DEP), "pub fn h() {}\n");
    assert_eq!(shared.seen(1, DEP), "pub fn h() {}\n");
}

#[test]
fn saved_file_reaches_sessions_with_other_files_open() {
    let mut shared = Shared::new();
    shared.open(2, &[(LIB, "mod part; // mine\n")]);
    assert_eq!(shared.seen(2, PART), "fn f() {}\n");
    save(&mut shared, PART, "saved\n", &[LIB]);
    assert_eq!(shared.seen(2, PART), "saved\n");
    assert_eq!(shared.seen(2, LIB), "mod part; // mine\n");
    assert_eq!(shared.seen(1, PART), "saved\n");
    assert_eq!(shared.seen(1, LIB), "mod part;\n");
}

#[test]
fn saved_file_stays_as_others_have_it_open() {
    let mut shared = Shared::new();
    shared.open(2, &[(PART, "mine\n")]);
    save(&mut shared, PART, "saved\n", &[PART]);
    assert_eq!(shared.seen(1, PART), "saved\n");
    assert_eq!(shared.seen(2, PART), "mine\n");
}

#[test]
fn last_of_several_saves_counts() {
    let mut shared = Shared::new();
    save(&mut shared, PART, "one\n", &[]);
    save(&mut shared, PART, "two\n", &[]);
    assert_eq!(shared.seen(1, PART), "two\n");
    assert_eq!(shared.seen(2, PART), "two\n");
}

#[test]
fn unopened_files_show_the_disk() {
    let mut shared = Shared::new();
    shared.open(1, &[(LIB, "mod part; // mine\n")]);
    assert_ne!(shared.seen_number(1, PART), shared.number(PART));
    assert_eq!(shared.seen(1, PART), "fn f() {}\n");
    shared.open(1, &[(LIB, "mod part; // still mine\n")]);
    assert_eq!(shared.seen(1, PART), "fn f() {}\n");
    shared.open(1, &[(LIB, "mod part; // mine\n"), (PART, "mine too\n")]);
    assert_eq!(shared.seen(1, PART), "mine too\n");
    shared.open(1, &[(LIB, "mod part; // mine\n")]);
    assert_eq!(shared.seen(1, PART), "fn f() {}\n");
    assert_eq!(shared.seen(1, DEP), "pub fn g() {}\n");
    assert_eq!(shared.world.base.inputs.texts.get(&shared.number(LIB)).unwrap(), "mod part;\n");
}

fn crates_are_rooted(shared: &Shared) -> bool {
    let world = &shared.world;
    let max = world.base_max_source_root.unwrap();
    crates(shared).iter().all(|krate| {
        let root = *world.base.inputs.file_roots.get(&krate.root_file).unwrap();
        root <= max && world.base.inputs.roots[root as usize].files.contains_key(&krate.root_file)
    })
}

#[test]
fn crates_stay_in_source_roots_on_disk() {
    let mut shared = Shared::new();
    assert!(crates_are_rooted(&shared));
    shared.open(1, &[(LIB, "one")]);
    shared.open(2, &[(DEP, "two")]);
    assert!(crates_are_rooted(&shared));
    save(&mut shared, PART, "saved\n", &[LIB, DEP]);
    assert!(crates_are_rooted(&shared));
    let more = load(&mut shared, "manifest:/x/Cargo.toml", &[(false, &[("/x/src/lib.rs", "")])]);
    assert!(matches!(shared.world.commit_workspace(more, &shared.ids), CommitStep::Placed(1, _)));
    let found = crates(&shared);
    shared.world.finish_workspace_commit(found, true, &shared.ids);
    assert!(crates_are_rooted(&shared));
    assert_eq!(shared.seen(1, LIB), "one");
    shared.world.unregister_session(1, &shared.ids);
    assert!(crates_are_rooted(&shared));
    assert_eq!(shared.seen(2, DEP), "two");
}

#[test]
fn overlay_in_step_stays() {
    let mut shared = Shared::new();
    assert!(shared.open(1, &[(PART, "edited"), (DEP, "too")]));
    let part = shared.seen_number(1, PART);
    let next = shared.ids.next;
    assert!(!shared.open(1, &[(PART, "edited"), (DEP, "too")]));
    assert_eq!(shared.seen_number(1, PART), part);
    assert_eq!(shared.ids.next, next);
    assert_eq!(shared.seen(1, DEP), "too");
}

#[test]
fn sessions_are_numbered_in_order() {
    let mut shared = Shared::new();
    shared.world.unregister_session(1, &shared.ids);
    assert_eq!(shared.world.register_session(&vec![0]), 3);
    shared.world.unregister_session(3, &shared.ids);
    assert_eq!(shared.world.register_session(&vec![]), 4);
}

#[test]
fn same_generations_show_the_same_crates() {
    let mut shared = Shared::new();
    let mut gc = SharedAnalyzerGcState::new();
    let mut session = RuntimeSession::new(1);
    let mut cache = SharedAnalysisCache { visible_files: FxHashSet::default() };
    let (workspaces, excluded) = (vec![0], vec![]);
    let (first, refreshed) = session.analysis_snapshot(&mut cache, &shared.world, &workspaces, &excluded, 0);
    assert!(refreshed);
    assert!(cache.visible_files.contains(&shared.number(LIB)));
    let before = cache.visible_files.clone();
    shared.open(2, &[(LIB, "x")]);
    let (second, refreshed) = session.analysis_snapshot(&mut cache, &shared.world, &workspaces, &excluded, 1);
    assert!(!refreshed);
    assert_eq!((first.base_generation, first.overlay_generation), (second.base_generation, second.overlay_generation));
    assert_eq!(cache.visible_files, before);
    assert_eq!(cache.visible_files, shared.world.session_visible_crate_roots(1, &workspaces, &excluded));
    let changed = shared.open(1, &[(LIB, "y")]);
    session.overlay_synced(&mut gc, changed);
    let (third, refreshed) = session.analysis_snapshot(&mut cache, &shared.world, &workspaces, &excluded, 1);
    assert!(refreshed);
    assert_ne!(third.overlay_generation, second.overlay_generation);
    assert!(cache.visible_files.contains(&shared.seen_number(1, LIB)));
    assert!(!cache.visible_files.contains(&shared.number(LIB)));
}

#[test]
fn file_that_is_made_and_deleted_comes_and_goes() {
    let mut shared = Shared::new();
    let change = |exists: bool| SharedBaseFileChange {
        path: path("/w/src/new.rs"),
        exists,
        text: if exists { Some(s("new")) } else { None },
        line_endings: if exists { Some(LineEndings::Unix) } else { None },
        classified: vec![true],
    };
    let noted = shared.world.note_file_changes(&vec![0], &vec![change(true)], &mut shared.ids).unwrap();
    assert_eq!(noted.affected, vec![0]);
    let number = shared.number("/w/src/new.rs");
    let lib = shared.number(LIB);
    let part = shared.number(PART);
    let dep = shared.number(DEP);
    let roots = vec![root(false, &[(lib, LIB), (part, PART), (number, "/w/src/new.rs")]), root(true, &[(dep, DEP)])];
    let disk = shared.world.set_workspace_roots(
        noted,
        vec![NewRoots { workspace: 0, roots, parents: FxHashMap::default() }],
        &shared.ids,
    );
    assert_eq!(disk.texts, vec![(number, Some(s("new")))]);
    let update = &disk.roots.unwrap().updates[0];
    assert_eq!((update.root, update.durability), (0, Durability::Low));
    assert_eq!(update.moved_files, vec![number]);
    shared.world.finish_file_changes(true, true, &classes(&[]), &mut shared.ids).unwrap();
    assert_eq!(shared.seen(2, "/w/src/new.rs"), "new");
    let noted = shared.world.note_file_changes(&vec![0], &vec![change(false)], &mut shared.ids).unwrap();
    assert_eq!(noted.affected, vec![0]);
    assert!(!shared.world.base.base_file_exists(&vec![0], number));
    assert_eq!(shared.world.session_file_mappings(2, &vec![0]).file_exists(number), Some(false));
}

#[test]
fn changes_elsewhere_are_not_for_the_workspace() {
    let mut shared = Shared::new();
    let change = SharedBaseFileChange {
        path: path("/x.rs"),
        exists: true,
        text: Some(s("x")),
        line_endings: Some(LineEndings::Unix),
        classified: vec![false],
    };
    let noted = shared.world.note_file_changes(&vec![0], &vec![change], &mut shared.ids).unwrap();
    assert!(noted.texts.is_empty() && noted.affected.is_empty() && !noted.endings_changed);
}

#[test]
fn leaving_is_private() {
    let mut shared = Shared::new();
    shared.open(1, &[(PART, "one")]);
    shared.open(2, &[(PART, "two")]);
    let mut gc = SharedAnalyzerGcState::new();
    let session = RuntimeSession::new(1);
    let number = shared.seen_number(1, PART);
    let change = session.leave_world(&mut shared.world, &shared.ids, &mut gc).unwrap();
    assert!(gc.dirty);
    assert!(change.texts.iter().any(|text| text.0 == number && text.1.is_none()));
    assert_eq!(shared.seen(2, PART), "two");
    assert_eq!(shared.world.active_overlay_sessions(), 1);
    let mut gc = SharedAnalyzerGcState::new();
    assert!(RuntimeSession::new(9).leave_world(&mut shared.world, &shared.ids, &mut gc).is_none());
    assert!(!gc.dirty);
}

#[test]
fn others_are_told_of_changed_workspaces() {
    let mut shared = Shared::new();
    assert_eq!(shared.world.notify_workspace_updates(1, &vec![0]), vec![2]);
    assert_eq!(shared.world.notify_workspace_updates(1, &vec![0]), Vec::<u64>::new());
    assert!(!shared.world.take_workspace_update(1));
    assert!(shared.world.take_workspace_update(2));
    assert!(!shared.world.take_workspace_update(2));
    assert!(shared.world.notify_workspace_updates(1, &vec![5]).is_empty());
}

#[test]
fn file_numbers_can_run_out() {
    let mut shared = Shared::new();
    shared.ids.next = MAX_ANALYZED_FILE_ID + 1;
    let files = vec![OpenFile { path: path(PART), text: s("x"), line_endings: LineEndings::Unix, classified: vec![Some(false)] }];
    assert!(matches!(shared.world.sync_open_files(1, &vec![0], &files, false, &mut shared.ids), Err(OutOfFileNumbers)));
    assert_eq!(shared.seen(1, PART), "fn f() {}\n");
}

#[test]
fn file_numbers_are_given_once() {
    let mut ids = SharedFileIds::new();
    let mut paths = SharedBaseFileIds::new();
    let a = paths.resolve(&s("/a"), &mut ids);
    let b = paths.resolve(&s("/b"), &mut ids);
    assert_eq!((a, b), (0, 1));
    assert_eq!(paths.resolve(&s("/a"), &mut ids), a);
    assert_eq!(ids.allocate(), 2);
}

#[test]
fn same_roots_change_nothing() {
    let mut inputs = AnalysisInputs::new();
    let first = inputs.apply_source_roots(vec![root(false, &[(1, "/a")]), root(true, &[(2, "/b")])]);
    assert_eq!(first.updates.len(), 2);
    assert_eq!(first.updates[1].durability, Durability::Medium);
    let again = inputs.apply_source_roots(vec![root(false, &[(1, "/a")]), root(true, &[(2, "/b")])]);
    assert!(again.updates.is_empty() && !again.local_roots_changed && !again.library_roots_changed);
}

#[test]
fn moved_file_is_in_its_last_new_root() {
    let mut inputs = AnalysisInputs::new();
    inputs.apply_source_roots(vec![root(false, &[(1, "/a")]), root(false, &[])]);
    inputs.apply_source_roots(vec![root(false, &[]), root(false, &[(1, "/a")])]);
    assert_eq!(inputs.file_roots.get(&1), Some(&1));
    inputs.set_text(1, Some(s("x")));
    inputs.set_text(1, None);
    assert_eq!(inputs.texts.get(&1), Some(&String::new()));
    assert!(inputs.local_roots.contains(&0) && inputs.local_roots.contains(&1) && inputs.library_roots.is_empty());
}

#[test]
fn tables_skip_files_without_a_number() {
    let mut numbers = FxHashMap::default();
    numbers.insert(5, 50);
    let vfs = vec![
        LoadedFile { file: 5, path: path("/a"), exists: true },
        LoadedFile { file: 6, path: path("/b"), exists: true },
    ];
    let mut table = LoadedWorkspaceFiles::from_vfs(&vfs, &numbers);
    assert_eq!(table.file_id(&s("/a")), Some(50));
    assert_eq!(table.file_id(&s("/b")), None);
    assert!(table.file_exists(50) && table.contains_file(50) && !table.contains_file(6));
    table.set_exists(50, false);
    assert!(!table.file_exists(50) && table.contains_file(50));
    assert_eq!(table.path(50).unwrap().text, "/a");
}

#[test]
fn open_documents_are_found_by_number() {
    let mut shared = Shared::new();
    shared.open(1, &[(PART, "x")]);
    let mappings = shared.world.session_file_mappings(1, &vec![0]);
    let files = document_files(&mappings, &vec![path(PART), path("/nowhere.rs"), path(LIB)]);
    assert_eq!(files, vec![shared.seen_number(1, PART), shared.seen_number(1, LIB)]);
    assert_eq!(mappings.base_file_id(&path(PART)), Some(shared.number(PART)));
    assert_eq!(mappings.path(shared.seen_number(1, PART)).unwrap().text, PART);
    assert_eq!(mappings.file_exists(shared.seen_number(1, PART)), Some(true));
    assert_eq!(mappings.file_exists(9999), None);
}

fn entry(view: Vec<usize>) -> BackendEntry {
    let cargo = analyzed::keys::SharedAnalyzerCargoConfigKey {
        all_targets: false,
        features: String::new(),
        target: None,
        sysroot: None,
        sysroot_src: None,
        rustc_source: None,
        extra_includes: vec![],
        cfg_overrides: String::new(),
        wrap_rustc_in_build_scripts: false,
        invocation_strategy: String::new(),
        run_build_script_command: String::new(),
        extra_args: vec![],
        extra_env: vec![],
        target_dir_config: String::new(),
        set_test: false,
        no_deps: false,
        metadata_extra_args: vec![],
    };
    let database = analyzed::keys::SharedAnalyzerDatabaseConfigKey {
        lru_parse_query_capacity: None,
        lru_query_capacities: vec![],
        expand_proc_attr_macros: false,
    };
    let load = analyzed::keys::SharedAnalyzerLoadKey {
        load_out_dirs_from_check: false,
        proc_macro_server: analyzed::keys::SharedAnalyzerProcMacroServerKey::Disabled,
        ignored_proc_macros: vec![],
        proc_macro_processes: 1,
    };
    BackendEntry {
        key: analyzed::keys::SharedAnalyzerBackendKey {
            shared_world: analyzed::keys::SharedAnalyzerWorldKey { cargo, database, load },
            workspace_view: analyzed::keys::SharedAnalyzerViewKey { projects: vec![], excluded_paths: vec![] },
        },
        client_sessions: 2,
        world: 0,
        view: WorkspaceView::new(view, vec![]),
    }
}

#[test]
fn backends_tell_what_can_be_seen_of_them() {
    let mut shared = Shared::new();
    shared.open(1, &[(PART, "x")]);
    let count = shared.world.overlays.get(&1).unwrap().path_by_file.len();
    let snapshots = SharedAnalyzerRegistry::backend_snapshots(
        vec![entry(vec![0, 3]), entry(vec![0]), entry(vec![0])],
        vec![WorldSight::Ready(&shared.world), WorldSight::Busy, WorldSight::Poisoned],
    );
    assert_eq!(snapshots[0].state, BackendSnapshotState::Ready);
    assert_eq!(snapshots[0].overlay_sessions, Some(2));
    assert_eq!(snapshots[0].overlay_files, Some(count));
    assert_eq!(snapshots[0].workspace_loads.as_ref().unwrap().len(), 1);
    assert_eq!(snapshots[1].state, BackendSnapshotState::Busy);
    assert!(snapshots[1].overlay_files.is_none() && snapshots[1].workspace_loads.is_none());
    assert_eq!(snapshots[2].state, BackendSnapshotState::Poisoned);
    assert_eq!(snapshots[2].client_sessions, 2);
    let loads = SharedAnalyzerRegistry::workspace_loads(snapshots);
    assert_eq!(loads.len(), 1);
    assert_eq!(loads[0].manifest, "/w/Cargo.toml");
}

#[test]
fn session_lists_its_projects() {
    let mut shared = Shared::new();
    shared.world.base.workspaces[0].build_data_loaded = false;
    let (list, complete) = shared.world.session_workspaces(&vec![Ok(0), Err(s("no manifest"))]);
    assert_eq!(list, vec![Ok(7), Err(s("no manifest"))]);
    assert!(!complete);
    shared.world.base.workspaces[0].build_data_loaded = true;
    assert!(shared.world.session_workspaces(&vec![Ok(0)]).1);
    assert!(shared.world.session_workspaces(&vec![]).1);
    let view = WorkspaceView::new(vec![0, 4], vec![]);
    assert_eq!(view.workspace_summaries(&shared.world).len(), 1);
}

fn package(name: &str) -> PackageInstanceKey {
    PackageInstanceKey {
        root_file: s(name),
        edition: s("2021"),
        origin: s("Local"),
        display_name: s(name),
        version: s("1.0.0"),
        cfg_options: String::new(),
        env: String::new(),
        is_proc_macro: false,
        proc_macro_cwd: String::new(),
    }
}

#[test]
fn crates_are_interned_by_package() {
    let packages = PackageInstances::refresh_package_instances(vec![(package("b"), 20), (package("a"), 10), (package("b"), 21), (package("b"), 20)]);
    let list = packages.package_instances();
    assert_eq!(list.len(), 2);
    assert_eq!((list[0].key().root_file.as_str(), list[0].crates().clone()), ("a", vec![10]));
    assert_eq!((list[1].key().root_file.as_str(), list[1].crates().clone()), ("b", vec![20, 21]));
    assert_eq!(packages.interned_crate(21), Ok(21));
    assert_eq!(packages.interned_crate(5), Err(NotInterned::Package));
    assert_eq!(packages.interned_crates(&vec![10, 20]), Ok(vec![10, 20]));
    assert_eq!(packages.interned_crates(&vec![10, 6]), Err(NotInterned::Package));
}

#[test]
fn cone_holds_the_file_its_crates_and_what_they_share() {
    let mut shared = Shared::new();
    let packages = PackageInstances::refresh_package_instances(vec![(package("dep"), 20), (package("w"), 10)]);
    let view = WorkspaceView::new(vec![0], vec![]);
    let next = shared.ids.next;
    let overlay = view.overlay_cone(&shared.world, &packages, &s(PART), &vec![10], &mut shared.ids).unwrap();
    let files: Vec<(u32, Option<u32>, &str)> =
        overlay.files().iter().map(|file| (file.base_file(), file.session_file(), file.path().text.as_str())).collect();
    assert_eq!(files, vec![(shared.number(PART), Some(next), PART), (shared.number(LIB), Some(next + 1), LIB)]);
    assert_eq!(overlay.crates(), &vec![SessionOverlayCrate::pending(10), SessionOverlayCrate::shared(20)]);
    assert_eq!(shared.ids.next, next + 2);
    assert_eq!(shared.world.crate_root_file(20).unwrap().1.text, DEP);
    assert_eq!(shared.world.shared_dependencies(&packages, 10), Ok(vec![20]));
    assert_eq!(view.workspace_file(&shared.world, &s(LIB)).unwrap().0, shared.number(LIB));
    assert_eq!(shared.world.workspace_file(&s(DEP)).unwrap().0, shared.number(DEP));
}

#[test]
fn cone_can_be_refused() {
    let mut shared = Shared::new();
    let none = PackageInstances::refresh_package_instances(vec![]);
    let view = WorkspaceView::new(vec![0], vec![]);
    let cone = |shared: &mut Shared, name: &str, crates: Vec<u32>| {
        view.overlay_cone(&shared.world, &none, &s(name), &crates, &mut shared.ids).err()
    };
    assert_eq!(cone(&mut shared, "/x.rs", vec![]), Some(ConeError::NotLoaded));
    assert_eq!(cone(&mut shared, PART, vec![99]), Some(ConeError::PathUnavailable));
    assert_eq!(cone(&mut shared, PART, vec![10]), Some(ConeError::NotInterned(NotInterned::Package)));
    shared.ids.next = MAX_ANALYZED_FILE_ID + 1;
    assert_eq!(cone(&mut shared, PART, vec![]), Some(ConeError::OutOfFileNumbers));
    assert_eq!(shared.ids.next, MAX_ANALYZED_FILE_ID + 1);
}

#[test]
fn overlay_holds_nothing_twice() {
    let mut overlay = SessionOverlay::new();
    overlay.push_file(SessionOverlayFile::new(1, 9, path("/a")));
    overlay.push_file(SessionOverlayFile::pending(1, path("/b")));
    overlay.push_file(SessionOverlayFile::pending(2, path("/c")));
    overlay.push_crate(SessionOverlayCrate::new(1, 2));
    overlay.push_crate(SessionOverlayCrate::shared(1));
    assert_eq!(overlay.files().len(), 2);
    assert_eq!(overlay.crates(), &vec![SessionOverlayCrate::new(1, 2)]);
    assert!(!overlay.crates()[0].is_shared() && SessionOverlayCrate::shared(3).is_shared());
    assert_eq!(overlay.crates()[0].base_crate(), 1);
    assert_eq!(overlay.crates()[0].session_crate(), Some(2));
    let mut ids = SharedFileIds::new();
    assert_eq!(overlay.materialize_files(&mut ids), Ok(()));
    assert_eq!(overlay.files()[0].session_file(), Some(9));
    assert_eq!(overlay.files()[1].session_file(), Some(0));
    assert_eq!(ids.next, 1);
    assert_eq!(overlay.materialize_files(&mut ids), Ok(()));
    assert_eq!(overlay.files()[0].session_file(), Some(9));
    assert_eq!(overlay.files()[1].session_file(), Some(0));
    assert_eq!(ids.next, 1);
}

#[test]
fn clients_of_the_workspaces_are_listed() {
    let mut shared = Shared::new();
    assert!(shared.world.proc_macro_clients().is_empty());
    let key = ProcMacroSpawnKey { path: s("/srv"), toolchain: None, env: vec![] };
    shared.world.base.workspaces[0].proc_macro_client = Some(Ok(SharedProcMacroClient { key, client: 3 }));
    assert_eq!(shared.world.proc_macro_clients()[0].client, 3);
    let listed = shared.world.proc_macro_clients_for(&vec![0, 0]);
    assert_eq!(listed.len(), 2);
    assert!(matches!(&listed[1], Some(Ok(client)) if client.client == 3));
}

fn spawn_config() -> SpawnConfig {
    SpawnConfig { server: ProcMacroServerChoice::Sysroot, extra_env: vec![], has_rustup_toolchain: false }
}

#[test]
fn reloaded_workspace_takes_its_old_place() {
    let mut shared = Shared::new();
    shared.open(1, &[(PART, "edited")]);
    let again = load(
        &mut shared,
        "manifest:/w/Cargo.toml",
        &[(false, &[(LIB, "mod part; // new\n"), (PART, "fn f() {}\n")]), (true, &[(DEP, "pub fn g() {}\n")])],
    );
    let (placed, noted) = shared.world.place_workspaces(vec![again], &shared.ids);
    assert_eq!((placed.len(), placed[0].index, placed[0].reloaded), (1, 0, true));
    assert_eq!(noted.affected, vec![0]);
    let roots: Vec<WorkspaceRoots> =
        placed.into_iter().map(|placed| WorkspaceRoots { workspace: placed.index, roots: placed.roots }).collect();
    let inputs = shared.world.commit_workspace_batch(
        noted,
        roots,
        &vec![0],
        &vec![],
        &spawn_config(),
        &vec![0],
        ProcMacroLoadState::Ready,
        &shared.ids,
    );
    assert_eq!(inputs.texts.len(), 3);
    let found = crates(&shared);
    let generation = shared.world.workspace_generation;
    let syncs = shared.world.finish_inputs(found, true, true, &classes(&[PART]), &mut shared.ids).unwrap();
    assert_eq!(syncs.len(), 2);
    assert!(syncs[0].change.is_some());
    assert_eq!(shared.world.workspace_generation, generation + 1);
    assert_eq!(shared.seen(2, LIB), "mod part; // new\n");
    assert_eq!(shared.seen(1, PART), "edited");
    assert_eq!(shared.seen(2, PART), "fn f() {}\n");
}

#[test]
fn staged_inputs_keep_the_texts() {
    let mut shared = Shared::new();
    let lib = shared.number(LIB);
    let part = shared.number(PART);
    let dep = shared.number(DEP);
    let roots = vec![root(false, &[(lib, LIB), (part, PART)]), root(true, &[(dep, DEP)])];
    let inputs = shared.world.apply_staged_inputs(vec![WorkspaceRoots { workspace: 0, roots }], &shared.ids);
    assert!(inputs.texts.is_empty());
    assert!(inputs.roots.updates.is_empty());
    assert_eq!(shared.seen(1, PART), "fn f() {}\n");
    assert_eq!(shared.world.workspace_source_roots().len(), 2);
}

#[test]
fn settings_files_are_seen_on_disk_and_open() {
    let mut shared = Shared { world: SharedWorld::new(), ids: SharedFileIds::new() };
    let prepared = load(
        &mut shared,
        "manifest:/w/Cargo.toml",
        &[(false, &[(LIB, ""), ("/w/rust-analyzer.toml", "a = 1")])],
    );
    assert!(matches!(shared.world.commit_workspace(prepared, &shared.ids), CommitStep::Placed(0, _)));
    shared.world.finish_workspace_commit(vec![], true, &shared.ids);
    shared.world.register_session(&vec![0]);
    let files = shared.world.ratoml_files(1, &vec![0]);
    assert_eq!(files.len(), 1);
    assert_eq!((files[0].path.text.as_str(), files[0].text.as_str()), ("/w/rust-analyzer.toml", "a = 1"));
    let doc = Document {
        path: path("/w/rust-analyzer.toml"),
        on_disk: true,
        data: b"a = 2\r\n".to_vec(),
        classified: vec![Some(false)],
    };
    let changed = SettingsChange {
        file: ModifiedRatoml { kind: ChangeKind::Delete, path: path("/w/rust-analyzer.toml"), text: None },
        user: false,
        classified: vec![Some(false)],
    };
    let configured = |docs, changes| {
        shared.world.reload_config_from_shared(1, &vec![0], docs, changes, Some(s("u = 1")), &vec![s("/w/rust-analyzer.toml")])
    };
    let text = |change: &ConfigChange| change.ratoml.get(&0).unwrap().text.clone();
    let plain = configured(vec![], vec![]);
    assert_eq!(text(&plain), Some(s("a = 1")));
    assert_eq!(plain.ratoml.get(&0).unwrap().kind, RatomlFileKind::Workspace);
    assert_eq!(plain.user_config, Some(Some(s("u = 1"))));
    assert!(plain.source_root_parents.is_empty());
    assert_eq!(text(&configured(vec![], vec![changed])), None);
    let again = Document { path: path("/w/rust-analyzer.toml"), data: b"a = 3".to_vec(), classified: vec![Some(false)], ..doc };
    assert_eq!(text(&configured(vec![again], vec![])), Some(s("a = 3")));
    let doc = Document {
        path: path("/w/rust-analyzer.toml"),
        on_disk: true,
        data: b"a = 2\r\n".to_vec(),
        classified: vec![Some(false)],
    };
    let open = settings_documents(&shared.world.base, &vec![0], vec![doc]);
    assert_eq!(open.len(), 1);
    assert_eq!((open[0].source_root, open[0].is_library, open[0].text.as_str()), (0, false, "a = 2\r\n"));
}

#[test]
fn servers_of_reloaded_projects_are_listed() {
    let mut shared = Shared::new();
    shared.world.base.workspaces[0].facts.sysroot_server = Some(Ok(s("/srv")));
    let keys = shared.world.proc_macro_reload_keys(&vec![s("manifest:/w/Cargo.toml"), s("manifest:/x")], &spawn_config());
    assert_eq!(keys.len(), 1);
    assert_eq!(keys[0].path, "/srv");
    let indexes = shared.world.proc_macro_indexes(&vec![], Some(&keys), Some(&spawn_config()));
    assert_eq!(indexes, vec![0]);
    shared.world.base.workspaces[0].proc_macros_loaded = true;
    shared.world.invalidate_proc_macro_groups(&vec![], &keys, &spawn_config(), &vec![8], ProcMacroLoadState::NotYetBuilt);
    assert_eq!(shared.world.base.workspaces[0].proc_macros, 8);
}
