//! Loading workspaces into a world.
//!
//! Loaded workspaces are first put into the world without source roots. Where a workspace was there
//! before, files that only the old one has stay, so the source roots are worked out anew outside.
//! Then the roots and the texts are put in, and last what the database found is taken over.
use crate::base::{
    client_view, contains_index, BaseView, LoadedView, LoadedWorkspace, ProcMacroFacts, SharedProcMacroClient, SummaryView,
    WorkspaceSummary,
};
use crate::disk::{mentions, noted_view, push_new, NotedChanges, NotedView};
use crate::file_ids::{distinct_below, SharedFileIds};
use crate::files::{numbered, FilesView, LoadedFile, LoadedWorkspaceFiles};
use crate::inputs::{root_views, SourceRoot};
use crate::keys::SharedAnalyzerProcMacroServerKey;
use crate::ordered::{law_numbers_ascend, lemma_sorted_keys, listed, sorted_keys, OrderedMap};
use crate::text::{endings_of, line_endings_of};
use crate::paths::LineEndings;
use crate::shared::{unshare, Replica};
use crate::world::{files_agree, paths_agree, workspace_agrees, SharedWorld, WorldView};
use rustc_hash::FxHashMap;
use std::sync::Arc;
use vstd::prelude::*;

verus! {

/// How far the macros of a workspace are.
#[derive(Clone, Copy, Debug, PartialEq, Eq, Structural)]
pub enum ProcMacroLoadState {
    Disabled,
    NotYetBuilt,
    Ready,
}

/// Without a macro server there are no macros; with one they are built after the workspace is
/// loaded.
pub fn metadata_proc_macro_state(server: &SharedAnalyzerProcMacroServerKey) -> (r: ProcMacroLoadState)
    ensures
        r == (if server is Disabled {
            ProcMacroLoadState::Disabled
        } else {
            ProcMacroLoadState::NotYetBuilt
        }),
{
    match server {
        SharedAnalyzerProcMacroServerKey::Disabled => ProcMacroLoadState::Disabled,
        SharedAnalyzerProcMacroServerKey::Sysroot | SharedAnalyzerProcMacroServerKey::Explicit(_) => ProcMacroLoadState::NotYetBuilt,
    }
}

/// What loading a project gives: the project's number, what it consists of, and its files with
/// their texts. `file_id_map` gives the numbers of files in the world by the loader's own.
pub struct WorkspaceLoad {
    pub root: String,
    pub root_key: String,
    pub manifest: Option<String>,
    pub packages: usize,
    pub project: u64,
    pub facts: ProcMacroFacts,
    pub source_roots: Vec<SourceRoot>,
    pub source_root_parent_map: FxHashMap<u32, u32>,
    pub vfs: Vec<LoadedFile>,
    pub file_id_map: FxHashMap<u32, u32>,
    pub file_texts: Vec<(u32, String)>,
    pub has_proc_macro_paths: bool,
    pub proc_macros: u64,
    pub proc_macro_client: Option<Result<SharedProcMacroClient, String>>,
}

/// A loaded workspace, ready to be put into the world under its key, and the texts of its files.
pub struct PreparedWorkspaceLoad {
    pub load_key: String,
    pub workspace: LoadedWorkspace,
    pub file_texts: Vec<(u32, Option<String>)>,
}

#[verifier::ext_equal]
pub struct PreparedLoadView {
    pub load_key: Seq<char>,
    pub workspace: LoadedView,
    pub texts: Seq<(u32, Option<Seq<char>>)>,
}

impl View for PreparedWorkspaceLoad {
    type V = PreparedLoadView;

    open spec fn view(&self) -> PreparedLoadView {
        PreparedLoadView {
            load_key: self.load_key@,
            workspace: self.workspace@,
            texts: self.file_texts.deep_view(),
        }
    }
}

/// The line endings of the first `n` texts: of two with one number the later counts.
pub open spec fn endings_to(texts: Seq<(u32, Seq<char>)>, n: int) -> Map<u32, LineEndings>
    decreases n,
{
    if n <= 0 {
        Map::empty()
    } else {
        endings_to(texts, n - 1).insert(texts[n - 1].0, endings_of(texts[n - 1].1))
    }
}

pub open spec fn some_texts(texts: Seq<(u32, Seq<char>)>) -> Seq<(u32, Option<Seq<char>>)> {
    texts.map_values(|t: (u32, Seq<char>)| (t.0, Some(t.1)))
}

proof fn lemma_numbered_wf(files: Seq<LoadedFile>, numbers: Map<u32, u32>)
    ensures
        numbered(files, numbers).wf(),
        forall|f: u32| #[trigger] numbered(files, numbers).contains_file(f) ==> exists|k: u32| #[trigger] numbers.contains_key(k) && numbers[k] == f,
    decreases files.len(),
{
    if files.len() > 0 {
        lemma_numbered_wf(files.drop_last(), numbers);
        let rest = numbered(files.drop_last(), numbers);
        let r = numbered(files, numbers);
        assert forall|k: Seq<char>| #[trigger] r.by_path.contains_key(k) implies r.by_id.contains_key(r.by_path[k]) by {
            if rest.by_path.contains_key(k) {
                assert(rest.by_id.contains_key(rest.by_path[k]));
            }
        }
        assert forall|f: u32| #[trigger] r.contains_file(f) implies exists|k: u32| #[trigger] numbers.contains_key(k) && numbers[k] == f by {
            if rest.contains_file(f) {
                assert(exists|k: u32| #[trigger] numbers.contains_key(k) && numbers[k] == f);
            } else {
                assert(numbers.contains_key(files.last().file));
            }
        }
    }
}

/// Makes a loaded project ready for the world. Macros count as loaded where there are none to
/// build, and build data where none is to be run.
pub fn prepare_loaded_workspace(
    load_key: String,
    load: WorkspaceLoad,
    state: ProcMacroLoadState,
    load_out_dirs_from_check: bool,
) -> (r: PreparedWorkspaceLoad)
    ensures
        r@.load_key == load_key@,
        r@.texts == some_texts(load.file_texts.deep_view()),
        r@.workspace == (LoadedView {
            summary: SummaryView {
                root: load.root@,
                manifest: match load.manifest {
                    Some(manifest) => manifest@,
                    None => load.root@,
                },
                packages: load.packages,
                files: load.vfs@.len() as usize,
                proc_macro_server: !(state is Disabled) && load.proc_macro_client matches Some(Ok(_)),
            },
            root_key: load.root_key@,
            project: load.project,
            facts: load.facts@,
            source_roots: root_views(load.source_roots@),
            has_proc_macro_paths: load.has_proc_macro_paths,
            proc_macros: load.proc_macros,
            proc_macros_loaded: !(state is NotYetBuilt) || !load.has_proc_macro_paths,
            build_data_loaded: !load_out_dirs_from_check,
            files: numbered(load.vfs@, load.file_id_map@),
            files_version: 0,
            line_endings: endings_to(load.file_texts.deep_view(), load.file_texts@.len() as int),
            parents: load.source_root_parent_map@,
            client: if state is Disabled {
                None
            } else {
                client_view(load.proc_macro_client)
            },
        }),
        r@.workspace.files.wf(),
        forall|ids: Map<Seq<char>, u32>, next: u32| #[trigger]
            distinct_below(ids, next) && #[trigger] resolved(ids, load.vfs@, load.file_id_map@) ==> files_agree(
                ids,
                r@.workspace.files,
            ),
{
    let ghost texts = load.file_texts.deep_view();
    let mut line_endings: OrderedMap<u32, LineEndings> = OrderedMap::new();
    let mut file_texts: Vec<(u32, Option<String>)> = Vec::new();
    let mut i: usize = 0;
    proof {
        lemma_numbered_wf(load.vfs@, load.file_id_map@);
        assert forall|ids: Map<Seq<char>, u32>, next: u32| #[trigger]
            distinct_below(ids, next) && #[trigger] resolved(ids, load.vfs@, load.file_id_map@) implies files_agree(
            ids,
            numbered(load.vfs@, load.file_id_map@),
        ) by {
            lemma_numbered_agree(ids, next, load.vfs@, load.file_id_map@);
        }
        assert(file_texts.deep_view() =~= some_texts(texts.take(0)));
        assert(texts.len() == load.file_texts@.len());
    }
    while i < load.file_texts.len()
        invariant
            i <= load.file_texts.len(),
            texts == load.file_texts.deep_view(),
            texts.len() == load.file_texts@.len(),
            line_endings@ == endings_to(texts, i as int),
            file_texts.deep_view() == some_texts(texts.take(i as int)),
        decreases load.file_texts.len() - i,
    {
        let file: u32 = load.file_texts[i].0;
        let text = load.file_texts[i].1.clone();
        let ghost before = file_texts.deep_view();
        proof {
            assert(texts[i as int] == (file, text@));
        }
        line_endings.insert(file, line_endings_of(&text));
        file_texts.push((file, Some(text)));
        proof {
            assert(file_texts.deep_view() =~= before.push((file, Some(texts[i as int].1))));
            assert(file_texts.deep_view() =~= some_texts(texts.take(i + 1)));
        }
        i = i + 1;
    }
    proof {
        assert(texts.take(i as int) =~= texts);
    }
    let files = LoadedWorkspaceFiles::from_vfs(&load.vfs, &load.file_id_map);
    let count: usize = load.vfs.len();
    let manifest = match load.manifest {
        Some(manifest) => manifest,
        None => load.root.clone(),
    };
    let proc_macro_client = match state {
        ProcMacroLoadState::Disabled => None,
        _ => load.proc_macro_client,
    };
    let proc_macro_server = match &proc_macro_client {
        Some(Ok(_)) => true,
        _ => false,
    };
    let not_built = match state {
        ProcMacroLoadState::NotYetBuilt => true,
        _ => false,
    };
    let workspace = LoadedWorkspace {
        summary: WorkspaceSummary { root: load.root, manifest, packages: load.packages, files: count, proc_macro_server },
        root_key: load.root_key,
        project: load.project,
        facts: load.facts,
        source_roots: load.source_roots,
        has_proc_macro_paths: load.has_proc_macro_paths,
        proc_macros: load.proc_macros,
        proc_macros_loaded: !not_built || !load.has_proc_macro_paths,
        build_data_loaded: !load_out_dirs_from_check,
        files: Arc::new(files),
        files_version: 0,
        line_endings: Arc::new(line_endings),
        source_root_parent_map: load.source_root_parent_map,
        proc_macro_client,
    };
    PreparedWorkspaceLoad { load_key, workspace, file_texts }
}

/// The files of a workspace with those of the first `n` files of the old one whose paths it lacks.
pub open spec fn preserved_to(new: FilesView, old: FilesView, n: int) -> FilesView
    decreases n,
{
    if n <= 0 {
        new
    } else {
        let before = preserved_to(new, old, n - 1);
        let f = sorted_keys::<u32>(old.by_id.dom())[n - 1];
        let entry = old.by_id[f];
        if before.file_id(entry.path.key) is None {
            before.inserted(f, entry.path, entry.exists)
        } else {
            before
        }
    }
}

/// The files of a workspace, and those of the old one whose paths it lacks.
pub open spec fn preserved(new: FilesView, old: FilesView) -> FilesView {
    preserved_to(new, old, sorted_keys::<u32>(old.by_id.dom()).len() as int)
}

/// A workspace that is loaded again, with what only the old one has, and without source roots.
pub open spec fn reloaded(new: LoadedView, old: LoadedView) -> LoadedView {
    let files = preserved(new.files, old.files);
    LoadedView {
        summary: SummaryView { files: files.by_id.dom().len() as usize, ..new.summary },
        source_roots: Seq::empty(),
        files,
        files_version: old.files_version.wrapping_add(1),
        line_endings: old.line_endings.union_prefer_right(new.line_endings),
        ..new
    }
}

/// The place of a loaded workspace.
pub open spec fn place_of(w: WorldView, load: PreparedLoadView) -> usize {
    if w.workspace_indexes.contains_key(load.load_key) {
        w.workspace_indexes[load.load_key]
    } else {
        w.base.workspaces.len() as usize
    }
}

/// What is known once one loaded workspace more is in the world, without source roots.
pub open spec fn placed_one(s: NotedView, load: PreparedLoadView) -> NotedView {
    let w = s.world;
    let ws = w.base.workspaces;
    let known = w.workspace_indexes.contains_key(load.load_key);
    let at = place_of(w, load);
    NotedView {
        world: WorldView {
            base: BaseView {
                workspaces: if known {
                    ws.update(at as int, reloaded(load.workspace, ws[at as int]))
                } else {
                    ws.push(LoadedView { source_roots: Seq::empty(), ..load.workspace })
                },
                ..w.base
            },
            workspace_indexes: w.workspace_indexes.insert(load.load_key, at),
            ..w
        },
        texts: s.texts + load.texts,
        affected: push_new(s.affected, at),
        ..s
    }
}

pub open spec fn is_given(ids: Map<Seq<char>, u32>, f: u32) -> bool {
    exists|k: Seq<char>| #[trigger] ids.contains_key(k) && ids[k] == f
}

/// The loaded files have the numbers that were given to their paths, and every file that exists has
/// a text.
pub open spec fn load_sound(ids: Map<Seq<char>, u32>, load: PreparedLoadView) -> bool {
    &&& load.workspace.files.wf()
    &&& files_agree(ids, load.workspace.files)
    &&& load.workspace.files.by_id.dom().finite()
    &&& forall|f: u32| #[trigger] load.workspace.files.file_exists(f) ==> mentions(load.texts, f)
    &&& forall|t: int| 0 <= t < load.texts.len() ==> is_given(ids, (#[trigger] load.texts[t]).0)
}

proof fn lemma_preserved_to(new: FilesView, old: FilesView, n: int)
    requires
        new.wf(),
        old.by_id.dom().finite(),
        0 <= n <= sorted_keys::<u32>(old.by_id.dom()).len(),
    ensures
        preserved_to(new, old, n).wf(),
        forall|f: u32|
            #[trigger] preserved_to(new, old, n).contains_file(f) ==> new.contains_file(f) || old.contains_file(f),
        forall|f: u32|
            #[trigger] preserved_to(new, old, n).file_exists(f) ==> new.file_exists(f) || old.file_exists(f),
    decreases n,
{
    if n > 0 {
        lemma_preserved_to(new, old, n - 1);
        let before = preserved_to(new, old, n - 1);
        let r = preserved_to(new, old, n);
        let keys = sorted_keys::<u32>(old.by_id.dom());
        crate::ordered::lemma_sorted_exists::<u32>(old.by_id.dom());
        assert(keys.to_set().contains(keys[n - 1]));
        let f = keys[n - 1];
        assert(old.contains_file(f));
        assert forall|k: Seq<char>| #[trigger] r.by_path.contains_key(k) implies r.by_id.contains_key(r.by_path[k]) by {
            if before.by_path.contains_key(k) {
                assert(before.by_id.contains_key(before.by_path[k]));
            }
        }
        assert forall|g: u32| #[trigger] r.contains_file(g) implies new.contains_file(g) || old.contains_file(g) by {
            if g != f {
                assert(before.contains_file(g));
            }
        }
        assert forall|g: u32| #[trigger] r.file_exists(g) implies new.file_exists(g) || old.file_exists(g) by {
            if g != f || before.file_exists(g) {
                assert(before.file_exists(g));
            } else {
                assert(old.by_id[f].exists || before.by_id[f].exists);
            }
        }
    }
}

/// Files that are preserved keep the numbers of their paths.
proof fn lemma_preserved_agree(ids: Map<Seq<char>, u32>, next: u32, new: FilesView, old: FilesView, n: int)
    requires
        distinct_below(ids, next),
        new.wf(),
        files_agree(ids, new),
        files_agree(ids, old),
        old.by_id.dom().finite(),
        0 <= n <= sorted_keys::<u32>(old.by_id.dom()).len(),
    ensures
        files_agree(ids, preserved_to(new, old, n)),
        preserved_to(new, old, n).wf(),
    decreases n,
{
    if n > 0 {
        lemma_preserved_agree(ids, next, new, old, n - 1);
        lemma_preserved_to(new, old, n);
        let before = preserved_to(new, old, n - 1);
        let r = preserved_to(new, old, n);
        let keys = sorted_keys::<u32>(old.by_id.dom());
        crate::ordered::lemma_sorted_exists::<u32>(old.by_id.dom());
        assert(keys.to_set().contains(keys[n - 1]));
        let f = keys[n - 1];
        assert(old.by_id.contains_key(f));
        let key = old.by_id[f].path.key;
        assert(old.by_path.contains_key(key) && old.by_path[key] == f);
        if before.file_id(key) is None {
            assert forall|g: u32| #[trigger] r.by_id.contains_key(g) implies r.by_path.contains_key(r.by_id[g].path.key)
                && r.by_path[r.by_id[g].path.key] == g by {
                if g != f {
                    assert(before.by_id.contains_key(g));
                    assert(before.by_path.contains_key(before.by_id[g].path.key));
                }
            }
        }
    }
}

/// The loader's numbers stand for the numbers given to the paths of its files.
pub open spec fn resolved(ids: Map<Seq<char>, u32>, files: Seq<LoadedFile>, numbers: Map<u32, u32>) -> bool {
    forall|i: int|
        0 <= i < files.len() && numbers.contains_key((#[trigger] files[i]).file) ==> ids.contains_key(files[i].path@.key)
            && ids[files[i].path@.key] == numbers[files[i].file]
}

proof fn lemma_numbered_agree(ids: Map<Seq<char>, u32>, next: u32, files: Seq<LoadedFile>, numbers: Map<u32, u32>)
    requires
        distinct_below(ids, next),
        resolved(ids, files, numbers),
    ensures
        files_agree(ids, numbered(files, numbers)),
    decreases files.len(),
{
    if files.len() > 0 {
        let front = files.drop_last();
        assert(resolved(ids, front, numbers)) by {
            assert forall|i: int| 0 <= i < front.len() && numbers.contains_key((#[trigger] front[i]).file) implies ids.contains_key(
                front[i].path@.key,
            ) && ids[front[i].path@.key] == numbers[front[i].file] by {
                assert(front[i] == files[i]);
            }
        }
        lemma_numbered_agree(ids, next, front, numbers);
        let rest = numbered(front, numbers);
        let r = numbered(files, numbers);
        let last = files[files.len() - 1];
        if numbers.contains_key(last.file) {
            let number = numbers[last.file];
            assert forall|f: u32| #[trigger] r.by_id.contains_key(f) implies r.by_path.contains_key(r.by_id[f].path.key)
                && r.by_path[r.by_id[f].path.key] == f by {
                if f != number {
                    assert(rest.by_id.contains_key(f));
                    assert(rest.by_path.contains_key(rest.by_id[f].path.key));
                }
            }
        }
    }
}

proof fn lemma_mentions_concat(a: Seq<(u32, Option<Seq<char>>)>, b: Seq<(u32, Option<Seq<char>>)>, f: u32)
    ensures
        mentions(a, f) || mentions(b, f) ==> mentions(a + b, f),
{
    if mentions(a, f) {
        let i = choose|i: int| 0 <= i < a.len() && (#[trigger] a[i]).0 == f;
        assert((a + b)[i].0 == f);
    }
    if mentions(b, f) {
        let i = choose|i: int| 0 <= i < b.len() && (#[trigger] b[i]).0 == f;
        assert((a + b)[a.len() + i].0 == f);
    }
}

/// Putting a loaded workspace into the world keeps everything sound, but for its files being
/// unknown to the database yet.
proof fn lemma_placed_one(s: NotedView, load: PreparedLoadView)
    requires
        s.wf(),
        load_sound(s.world.file_ids, load),
        s.world.base.workspaces.len() < usize::MAX,
        forall|i: int| 0 <= i < s.world.base.workspaces.len() ==> (#[trigger] s.world.base.workspaces[i]).files.by_id.dom().finite(),
    ensures
        placed_one(s, load).wf(),
        load.workspace.files.by_id.dom().finite(),
{
    let w = s.world;
    let ws = w.base.workspaces;
    let r = placed_one(s, load);
    let at = place_of(w, load);
    let known = w.workspace_indexes.contains_key(load.load_key);
    let new_ws = r.world.base.workspaces;
    assert(at < new_ws.len());
    if known {
        lemma_preserved_to(
            load.workspace.files,
            ws[at as int].files,
            sorted_keys::<u32>(ws[at as int].files.by_id.dom()).len() as int,
        );
    }
    let files = new_ws[at as int].files;
    assert(files.wf());
    assert forall|f: u32| #[trigger] is_given(w.file_ids, f) implies f < s.next && forall|t: u64|
        #[trigger] w.overlays.contains_key(t) ==> !w.overlays[t].path_by_file.contains_key(f) by {
        let k = choose|k: Seq<char>| #[trigger] w.file_ids.contains_key(k) && w.file_ids[k] == f;
        assert(w.file_ids.contains_key(k));
    }
    assert forall|f: u32| #[trigger] files.contains_file(f) implies is_given(w.file_ids, f) || (known && ws[at as int].files.contains_file(f)) by {
        if load.workspace.files.contains_file(f) {
            assert(load.workspace.files.by_path.contains_key(load.workspace.files.by_id[f].path.key));
            assert(is_given(w.file_ids, f));
        }
    }
    assert(paths_agree(r.world.file_ids, new_ws)) by {
        reveal(paths_agree);
        assert forall|i: int| 0 <= i < new_ws.len() implies workspace_agrees(w.file_ids, #[trigger] new_ws[i]) by {
            if i != at {
                assert(workspace_agrees(w.file_ids, ws[i]));
            } else if known {
                assert(workspace_agrees(w.file_ids, ws[i]));
                lemma_preserved_agree(
                    w.file_ids,
                    s.next,
                    load.workspace.files,
                    ws[at as int].files,
                    sorted_keys::<u32>(ws[at as int].files.by_id.dom()).len() as int,
                );
            }
        }
    }
    assert(crate::world::disk_numbers_apart(r.world, r.next)) by {
        assert forall|i: int, f: u32| 0 <= i < new_ws.len() && #[trigger] new_ws[i].files.contains_file(f) implies f < r.next by {
            if i != at {
                assert(ws[i].files.contains_file(f));
            } else if !is_given(w.file_ids, f) {
                assert(ws[at as int].files.contains_file(f));
            }
        }
        assert forall|i: int, f: u32, t: u64|
            0 <= i < new_ws.len() && #[trigger] new_ws[i].files.contains_file(f) && r.world.overlays.contains_key(t) implies !#[trigger] r.world.overlays[t].path_by_file.contains_key(
            f,
        ) by {
            if i != at {
                assert(ws[i].files.contains_file(f));
                assert(!w.overlays[t].path_by_file.contains_key(f));
            } else if is_given(w.file_ids, f) {
                assert(w.overlays.contains_key(t));
            } else {
                assert(ws[at as int].files.contains_file(f));
                assert(!w.overlays[t].path_by_file.contains_key(f));
            }
        }
        assert forall|i: int| 0 <= i < new_ws.len() implies (#[trigger] new_ws[i]).files.wf() by {
            if i != at {
                assert(ws[i].files.wf());
            }
        }
    }
    assert(r.world.base.roots_readable()) by {
        assert(r.world.base.inputs == w.base.inputs);
        assert forall|v: int, q: int, f: u32|
            0 <= v < new_ws.len() && 0 <= q < new_ws[v].source_roots.len() && #[trigger] new_ws[v].source_roots[q].files.contains_key(f) implies r.world.base.has_file(f) by {
            assert(v != at);
            assert(ws[v].source_roots[q].files.contains_key(f));
            assert(w.base.has_file(f));
        }
        assert forall|v: int, q: int| 0 <= v < new_ws.len() && 0 <= q < new_ws[v].source_roots.len() implies (#[trigger] new_ws[v].source_roots[q]).files.dom().finite() by {
            assert(v != at);
            assert(ws[v].source_roots[q].files.dom().finite());
        }
    }
    assert(r.world.sound_roots(r.next));
    assert(r.affected.contains(at)) by {
        if !s.affected.contains(at) {
            assert(r.affected[s.affected.len() as int] == at);
        }
    }
    assert forall|i: usize| s.affected.contains(i) implies r.affected.contains(i) by {
        let j = s.affected.index_of(i);
        assert(r.affected[j] == i);
    }
    assert forall|i: int, f: u32| 0 <= i < new_ws.len() && #[trigger] new_ws[i].files.file_exists(f) implies r.world.base.has_file(f) || (
    r.affected.contains(i as usize) && mentions(r.texts, f)) by {
        lemma_mentions_concat(s.texts, load.texts, f);
        if i != at {
            assert(ws[i].files.file_exists(f));
            assert(w.base.has_file(f) || (s.affected.contains(i as usize) && mentions(s.texts, f)));
        } else if load.workspace.files.file_exists(f) {
            assert(mentions(load.texts, f));
        } else {
            assert(ws[at as int].files.file_exists(f));
            assert(w.base.has_file(f) || (s.affected.contains(i as usize) && mentions(s.texts, f)));
        }
    }
    assert forall|t: int, o: u64| 0 <= t < r.texts.len() && #[trigger] r.world.overlays.contains_key(o) implies !r.world.overlays[o].path_by_file.contains_key(
        (#[trigger] r.texts[t]).0,
    ) by {
        if t < s.texts.len() {
            assert(r.texts[t] == s.texts[t]);
        } else {
            assert(r.texts[t] == load.texts[t - s.texts.len()]);
            assert(is_given(w.file_ids, load.texts[t - s.texts.len()].0));
            assert(w.overlays.contains_key(o));
        }
    }
    assert forall|t: int| 0 <= t < r.texts.len() implies (#[trigger] r.texts[t]).0 < r.next by {
        if t < s.texts.len() {
            assert(r.texts[t] == s.texts[t]);
        } else {
            assert(r.texts[t] == load.texts[t - s.texts.len()]);
            assert(is_given(w.file_ids, load.texts[t - s.texts.len()].0));
        }
    }
    assert forall|j: int| 0 <= j < r.affected.len() implies (#[trigger] r.affected[j]) < new_ws.len() by {
        if j < s.affected.len() {
            assert(r.affected[j] == s.affected[j]);
        }
    }
}

/// The tables of files are finite.
pub proof fn lemma_files_finite(ws: Seq<LoadedWorkspace>)
    ensures
        forall|i: int| 0 <= i < ws.len() ==> (#[trigger] crate::base::loaded_views(ws)[i]).files.by_id.dom().finite(),
{
    let views = crate::base::loaded_views(ws);
    assert forall|i: int| 0 <= i < ws.len() implies (#[trigger] views[i]).files.by_id.dom().finite() by {
        ws[i].files.files_by_id.lemma_domain_sorted();
        assert(views[i].files.by_id.dom() =~= ws[i].files.files_by_id@.dom());
    }
}

/// Adds the files that only the old workspace has.
fn preserve_files(files: &mut LoadedWorkspaceFiles, old_files: &LoadedWorkspaceFiles)
    ensures
        final(files)@ == preserved(old(files)@, old_files@),
{
    let n = old_files.files_by_id.len();
    let ghost (new, prior) = (files@, old_files@);
    let mut i: usize = 0;
    proof {
        lemma_sorted_keys(old_files.files_by_id);
        assert(prior.by_id.dom() =~= old_files.files_by_id@.dom());
    }
    while i < n
        invariant
            i <= n,
            n == old_files.files_by_id.keys().len(),
            listed(old_files.files_by_id),
            prior == old_files@,
            old_files.files_by_id.keys() == sorted_keys::<u32>(prior.by_id.dom()),
            files@ == preserved_to(new, prior, i as int),
        decreases n - i,
    {
        let file: u32 = *old_files.files_by_id.key_at(i);
        let entry = old_files.files_by_id.value_at(i);
        proof {
            assert(old_files.files_by_id@.contains_key(old_files.files_by_id.keys()[i as int]));
            assert(prior.by_id[file].path == entry.path@ && prior.by_id[file].exists == entry.exists);
        }
        if files.file_id(&entry.path.key).is_none() {
            files.insert(file, entry.path.replica(), entry.exists);
        }
        i = i + 1;
    }
}

/// Adds the line endings that only the old workspace has.
fn preserve_endings(endings: &mut OrderedMap<u32, LineEndings>, old_endings: &OrderedMap<u32, LineEndings>)
    ensures
        final(endings)@ == old_endings@.union_prefer_right(old(endings)@),
{
    let n = old_endings.len();
    let ghost new = endings@;
    let ghost keys = old_endings.keys();
    let mut i: usize = 0;
    while i < n
        invariant
            i <= n,
            n == keys.len(),
            keys == old_endings.keys(),
            listed(*old_endings),
            forall|f: u32|
                #[trigger] endings@.contains_key(f) <==> new.contains_key(f) || keys.take(i as int).contains(f),
            forall|f: u32|
                #[trigger] endings@.contains_key(f) ==> endings@[f] == (if new.contains_key(f) {
                    new[f]
                } else {
                    old_endings@[f]
                }),
        decreases n - i,
    {
        let file: u32 = *old_endings.key_at(i);
        let value: LineEndings = *old_endings.value_at(i);
        let ghost before = endings@;
        proof {
            assert(old_endings@.contains_key(keys[i as int]) && old_endings@[file] == value);
            assert(keys.take(i + 1) =~= keys.take(i as int).push(file));
            assert forall|f: u32| keys.take(i + 1).contains(f) <==> f == file || keys.take(i as int).contains(f) by {
                if keys.take(i as int).contains(f) {
                    let j = keys.take(i as int).index_of(f);
                    assert(keys.take(i + 1)[j] == f);
                }
                if f == file {
                    assert(keys.take(i + 1)[i as int] == f);
                }
            }
        }
        if !endings.contains_key(&file) {
            endings.insert(file, value);
        }
        i = i + 1;
    }
    proof {
        assert(keys.take(n as int) =~= keys);
        assert forall|f: u32| old_endings@.contains_key(f) implies keys.contains(f) by {}
        assert forall|f: u32| keys.contains(f) implies old_endings@.contains_key(f) by {
            let j = keys.index_of(f);
            assert(old_endings@.contains_key(keys[j]));
        }
        assert(endings@ =~= old_endings@.union_prefer_right(new));
    }
}

/// Adds to a workspace that is loaded again what only the old one has, and takes its source roots
/// out, which have to be worked out anew.
fn preserve_workspace_files(workspace: &mut LoadedWorkspace, old_workspace: &LoadedWorkspace)
    ensures
        final(workspace)@ == reloaded(old(workspace)@, old_workspace@),
{
    let ghost before = workspace@;
    let mut files: Arc<LoadedWorkspaceFiles> = Arc::new(LoadedWorkspaceFiles::empty());
    std::mem::swap(&mut workspace.files, &mut files);
    let mut files = unshare(files);
    proof {
        assert(files@ == before.files);
    }
    preserve_files(&mut files, &old_workspace.files);
    let count: usize = files.files_by_id.len();
    proof {
        files.files_by_id.lemma_len();
        assert(files@.by_id.dom() =~= files.files_by_id@.dom());
    }
    workspace.files = Arc::new(files);
    workspace.files_version = old_workspace.files_version.wrapping_add(1);
    let mut endings: Arc<OrderedMap<u32, LineEndings>> = Arc::new(OrderedMap::new());
    std::mem::swap(&mut workspace.line_endings, &mut endings);
    let mut endings = unshare(endings);
    proof {
        assert(endings@ == before.line_endings);
    }
    preserve_endings(&mut endings, &old_workspace.line_endings);
    workspace.line_endings = Arc::new(endings);
    workspace.source_roots = Vec::new();
    workspace.summary.files = count;
    proof {
        assert(root_views(workspace.source_roots@) =~= Seq::empty());
        assert(workspace@.summary =~= reloaded(before, old_workspace@).summary);
        assert(workspace@ =~= reloaded(before, old_workspace@));
    }
}

/// Where a loaded workspace was put, whether there was one before, and the source roots that the
/// loader found for it.
pub struct PlacedWorkspace {
    pub index: usize,
    pub reloaded: bool,
    pub roots: Vec<SourceRoot>,
}

impl SharedWorld {
    /// The place of the workspace that was loaded under a key.
    pub fn workspace_index(&self, load_key: &String) -> (r: Option<usize>)
        ensures
            r == (if self@.workspace_indexes.contains_key(load_key@) {
                Some(self@.workspace_indexes[load_key@])
            } else {
                None
            }),
    {
        match self.workspace_indexes.get(load_key) {
            Some(index) => Some(*index),
            None => None,
        }
    }

    /// Puts a loaded workspace into the world, in place of the one under the same key if there is
    /// one, and notes its texts.
    pub fn place_workspace(
        &mut self,
        noted: &mut NotedChanges,
        load: PreparedWorkspaceLoad,
        ids: &SharedFileIds,
    ) -> (r: PlacedWorkspace)
        requires
            noted_view(*old(self), *ids, *old(noted)).wf(),
            load_sound(old(self)@.file_ids, load@),
            old(self)@.base.workspaces.len() < usize::MAX,
        ensures
            noted_view(*final(self), *ids, *final(noted)) == placed_one(noted_view(*old(self), *ids, *old(noted)), load@),
            noted_view(*final(self), *ids, *final(noted)).wf(),
            r.index == place_of(old(self)@, load@),
            r.reloaded == old(self)@.workspace_indexes.contains_key(load.load_key@),
            root_views(r.roots@) == load@.workspace.source_roots,
    {
        let ghost s = noted_view(*self, *ids, *noted);
        let ghost w = self@;
        let ghost ws = self@.base.workspaces;
        let ghost view = load@;
        proof {
            lemma_files_finite(self.base.workspaces@);
            lemma_placed_one(s, view);
            assert(ws.len() == self.base.workspaces@.len());
        }
        let PreparedWorkspaceLoad { load_key, workspace, file_texts } = load;
        let mut workspace = workspace;
        let mut roots: Vec<SourceRoot> = Vec::new();
        std::mem::swap(&mut workspace.source_roots, &mut roots);
        proof {
            assert(root_views(workspace.source_roots@) =~= Seq::empty());
            assert(workspace@ =~= (LoadedView { source_roots: Seq::empty(), ..view.workspace }));
        }
        let known = self.workspace_index(&load_key);
        let index: usize = match known {
            Some(index) => {
                preserve_workspace_files(&mut workspace, &self.base.workspaces[index]);
                proof {
                    assert(ws[index as int] == self.base.workspaces@[index as int]@);
                    assert(workspace@ =~= reloaded(view.workspace, ws[index as int]));
                }
                let ghost new = workspace@;
                self.base.workspaces[index] = workspace;
                proof {
                    assert(self@.base.workspaces =~= ws.update(index as int, new));
                    assert(w.workspace_indexes =~= w.workspace_indexes.insert(load_key@, index));
                }
                index
            },
            None => {
                let index: usize = self.base.workspaces.len();
                let ghost new = workspace@;
                self.workspace_indexes.insert(load_key, index);
                self.base.workspaces.push(workspace);
                proof {
                    assert(self@.base.workspaces =~= ws.push(new));
                }
                index
            },
        };
        if !contains_index(&noted.affected, index) {
            noted.affected.push(index);
        }
        push_texts(&mut noted.texts, file_texts);
        proof {
            assert(noted_view(*self, *ids, *noted) =~= placed_one(s, view));
        }
        PlacedWorkspace { index, reloaded: known.is_some(), roots }
    }
}

fn push_texts(list: &mut Vec<(u32, Option<String>)>, more: Vec<(u32, Option<String>)>)
    ensures
        final(list).deep_view() == old(list).deep_view() + more.deep_view(),
{
    let ghost start = list.deep_view();
    let ghost all = more.deep_view();
    let mut i: usize = 0;
    proof {
        assert(list.deep_view() =~= start + all.take(0));
        assert(all.len() == more@.len());
    }
    while i < more.len()
        invariant
            i <= more.len(),
            all == more.deep_view(),
            all.len() == more@.len(),
            list.deep_view() == start + all.take(i as int),
        decreases more.len() - i,
    {
        let ghost before = list.deep_view();
        let text = match &more[i].1 {
            Some(text) => Some(text.clone()),
            None => None,
        };
        proof {
            assert(all[i as int] == (more@[i as int].0, more@[i as int].1.deep_view()));
            assert(text.deep_view() == more@[i as int].1.deep_view());
        }
        list.push((more[i].0, text));
        proof {
            assert(list.deep_view() =~= before.push(all[i as int]));
            assert(list.deep_view() =~= start + all.take(i + 1));
        }
        i = i + 1;
    }
    proof {
        assert(all.take(i as int) =~= all);
    }
}

/// The line endings of a loaded file are those of its text: of two texts for one file the later
/// counts, and a file without a text has none.
pub proof fn law_last_text_gives_the_endings(texts: Seq<(u32, Seq<char>)>, n: int, file: u32)
    requires
        0 <= n <= texts.len(),
    ensures
        endings_to(texts, n).contains_key(file) <==> exists|i: int| 0 <= i < n && (#[trigger] texts[i]).0 == file,
        forall|i: int|
            0 <= i < n && (#[trigger] texts[i]).0 == file && (forall|j: int| i < j < n ==> (#[trigger] texts[j]).0 != file)
                ==> endings_to(texts, n)[file] == endings_of(texts[i].1),
    decreases n,
{
    if n > 0 {
        law_last_text_gives_the_endings(texts, n - 1, file);
        if texts[n - 1].0 == file {
            assert(texts[n - 1].0 == file);
        }
    }
}

/// A workspace that is loaded again keeps what it found under its own paths. A path that only the
/// old one has stays known, with the file that had it there.
pub proof fn law_old_paths_stay_known(new: FilesView, old: FilesView, key: Seq<char>)
    requires
        old.by_id.dom().finite(),
    ensures
        ({
            let r = preserved(new, old);
            &&& new.by_path.contains_key(key) ==> r.by_path.contains_key(key) && r.by_path[key] == new.by_path[key]
            &&& forall|f: u32| #[trigger] old.by_id.contains_key(f) && old.by_id[f].path.key == key ==> r.by_path.contains_key(key)
            &&& r.by_path.contains_key(key) && !new.by_path.contains_key(key) ==> old.by_id.contains_key(r.by_path[key])
                && old.by_id[r.by_path[key]].path.key == key && r.by_id.contains_key(r.by_path[key]) && r.by_id[r.by_path[key]]
                == old.by_id[r.by_path[key]]
            &&& r.by_path.contains_key(key) && !new.by_path.contains_key(key) ==> forall|f: u32| #[trigger]
                old.by_id.contains_key(f) && old.by_id[f].path.key == key ==> r.by_path[key] <= f
        }),
{
    let keys = sorted_keys::<u32>(old.by_id.dom());
    law_numbers_ascend(old.by_id.dom());
    lemma_old_paths(new, old, key, keys.len() as int);
    assert forall|f: u32| #[trigger] old.by_id.contains_key(f) && old.by_id[f].path.key == key implies preserved(new, old).by_path.contains_key(
        key,
    ) && (!new.by_path.contains_key(key) ==> preserved(new, old).by_path[key] <= f) by {
        assert(old.by_id.dom().contains(f) <==> keys.contains(f));
        let i = keys.index_of(f);
        assert(old.by_id[keys[i]].path.key == key);
    }
}

proof fn lemma_old_paths(new: FilesView, old: FilesView, key: Seq<char>, n: int)
    requires
        old.by_id.dom().finite(),
        0 <= n <= sorted_keys::<u32>(old.by_id.dom()).len(),
    ensures
        ({
            let r = preserved_to(new, old, n);
            let keys = sorted_keys::<u32>(old.by_id.dom());
            &&& new.by_path.contains_key(key) ==> r.by_path.contains_key(key) && r.by_path[key] == new.by_path[key]
            &&& forall|i: int| 0 <= i < n && old.by_id[#[trigger] keys[i]].path.key == key ==> r.by_path.contains_key(key)
            &&& r.by_path.contains_key(key) && !new.by_path.contains_key(key) ==> old.by_id.contains_key(r.by_path[key])
                && old.by_id[r.by_path[key]].path.key == key && r.by_id.contains_key(r.by_path[key]) && r.by_id[r.by_path[key]]
                == old.by_id[r.by_path[key]]
            &&& r.by_path.contains_key(key) && !new.by_path.contains_key(key) ==> (exists|m: int|
                0 <= m < n && #[trigger] keys[m] == r.by_path[key]) && forall|i: int|
                0 <= i < n && old.by_id[#[trigger] keys[i]].path.key == key ==> r.by_path[key] <= keys[i]
        }),
    decreases n,
{
    if n > 0 {
        lemma_old_paths(new, old, key, n - 1);
        law_numbers_ascend(old.by_id.dom());
        let keys = sorted_keys::<u32>(old.by_id.dom());
        let before = preserved_to(new, old, n - 1);
        let f = keys[n - 1];
        assert(keys.contains(f));
        assert(old.by_id.contains_key(f));
        if before.by_path.contains_key(key) && !new.by_path.contains_key(key) {
            let m = choose|m: int| 0 <= m < n - 1 && #[trigger] keys[m] == before.by_path[key];
            assert(keys[m] < keys[n - 1]);
        }
    }
}

/// A file of a workspace that is loaded again is as it was found now, or as the old workspace had
/// it where its path was not found now. No file that was found now is lost.
pub proof fn law_reloaded_files_are_as_found(new: FilesView, old: FilesView, file: u32)
    requires
        old.by_id.dom().finite(),
    ensures
        ({
            let r = preserved(new, old);
            &&& new.by_id.contains_key(file) ==> r.by_id.contains_key(file)
            &&& r.by_id.contains_key(file) ==> (new.by_id.contains_key(file) && r.by_id[file] == new.by_id[file]) || (
            old.by_id.contains_key(file) && r.by_id[file] == old.by_id[file] && !new.by_path.contains_key(old.by_id[file].path.key))
            &&& new.by_id.contains_key(file) && (old.by_id.contains_key(file) ==> new.by_path.contains_key(
                old.by_id[file].path.key,
            )) ==> r.by_id[file] == new.by_id[file]
        }),
{
    lemma_reloaded_files(new, old, file, sorted_keys::<u32>(old.by_id.dom()).len() as int);
}

proof fn lemma_reloaded_files(new: FilesView, old: FilesView, file: u32, n: int)
    requires
        old.by_id.dom().finite(),
        0 <= n <= sorted_keys::<u32>(old.by_id.dom()).len(),
    ensures
        ({
            let r = preserved_to(new, old, n);
            &&& new.by_id.contains_key(file) ==> r.by_id.contains_key(file)
            &&& r.by_id.contains_key(file) ==> (new.by_id.contains_key(file) && r.by_id[file] == new.by_id[file]) || (
            old.by_id.contains_key(file) && r.by_id[file] == old.by_id[file] && !new.by_path.contains_key(old.by_id[file].path.key))
            &&& new.by_id.contains_key(file) && (old.by_id.contains_key(file) ==> new.by_path.contains_key(
                old.by_id[file].path.key,
            )) ==> r.by_id[file] == new.by_id[file]
        }),
    decreases n,
{
    if n > 0 {
        lemma_reloaded_files(new, old, file, n - 1);
        law_numbers_ascend(old.by_id.dom());
        let keys = sorted_keys::<u32>(old.by_id.dom());
        let f = keys[n - 1];
        assert(keys.contains(f));
        assert(old.by_id.contains_key(f));
        lemma_old_paths(new, old, old.by_id[f].path.key, n - 1);
    }
}

/// What is loaded again takes the place of what was there: its project, facts, macros and build data
/// are those loaded now, its version is the next, its source roots are still to be worked out, and
/// the line endings of a file are those found now, or else those known before.
pub proof fn law_loaded_again_takes_the_place(new: LoadedView, old: LoadedView, file: u32)
    ensures
        ({
            let r = reloaded(new, old);
            &&& r.source_roots.len() == 0
            &&& r.files == preserved(new.files, old.files)
            &&& old.files_version < u64::MAX ==> r.files_version == old.files_version + 1
            &&& r.project == new.project && r.facts == new.facts && r.root_key == new.root_key && r.client == new.client
            &&& r.proc_macros == new.proc_macros && r.proc_macros_loaded == new.proc_macros_loaded
            &&& r.build_data_loaded == new.build_data_loaded && r.has_proc_macro_paths == new.has_proc_macro_paths
            &&& r.parents == new.parents
            &&& r.summary.root == new.summary.root && r.summary.manifest == new.summary.manifest && r.summary.packages
                == new.summary.packages && r.summary.proc_macro_server == new.summary.proc_macro_server
            &&& r.summary.files == r.files.by_id.dom().len() as usize
            &&& new.line_endings.contains_key(file) ==> r.line_endings.contains_key(file) && r.line_endings[file]
                == new.line_endings[file]
            &&& !new.line_endings.contains_key(file) ==> r.line_endings.contains_key(file) == old.line_endings.contains_key(file) && (
            old.line_endings.contains_key(file) ==> r.line_endings[file] == old.line_endings[file])
        }),
{
}

/// A workspace that is loaded under a known key takes the place of the one there; any other comes
/// last. The other workspaces stay where and as they are, the key leads to the workspace from then
/// on, its texts are noted behind those noted before, and it is among the workspaces concerned.
pub proof fn law_loaded_workspace_has_its_place(s: NotedView, load: PreparedLoadView, i: int, key: Seq<char>)
    requires
        s.world.workspace_indexes.contains_key(load.load_key) ==> s.world.workspace_indexes[load.load_key]
            < s.world.base.workspaces.len(),
        s.world.base.workspaces.len() < usize::MAX,
        0 <= i < s.world.base.workspaces.len(),
        key != load.load_key,
    ensures
        ({
            let r = placed_one(s, load);
            let ws = s.world.base.workspaces;
            let now = r.world.base.workspaces;
            let at = r.world.workspace_indexes[load.load_key];
            &&& r.world.workspace_indexes.contains_key(load.load_key)
            &&& r.world.workspace_indexes.contains_key(key) == s.world.workspace_indexes.contains_key(key)
            &&& s.world.workspace_indexes.contains_key(key) ==> r.world.workspace_indexes[key] == s.world.workspace_indexes[key]
            &&& i != at ==> now[i] == ws[i]
            &&& s.world.workspace_indexes.contains_key(load.load_key) ==> at == s.world.workspace_indexes[load.load_key] && now.len()
                == ws.len() && now[at as int] == reloaded(load.workspace, ws[at as int])
            &&& !s.world.workspace_indexes.contains_key(load.load_key) ==> at == ws.len() && now.len() == ws.len() + 1
                && now[at as int].source_roots.len() == 0 && now[at as int] == (LoadedView {
                source_roots: now[at as int].source_roots,
                ..load.workspace
            })
            &&& r.affected.contains(at)
            &&& forall|j: usize| j != at ==> #[trigger] r.affected.contains(j) == s.affected.contains(j)
            &&& r.texts == s.texts + load.texts
            &&& r.world.overlays == s.world.overlays && r.world.base.crates == s.world.base.crates && r.world.base.inputs
                == s.world.base.inputs && r.world.file_ids == s.world.file_ids && r.next == s.next
        }),
{
    let at = place_of(s.world, load);
    let grown = s.affected.push(at);
    assert(grown[s.affected.len() as int] == at);
    assert forall|j: usize| grown.contains(j) <==> s.affected.contains(j) || j == at by {
        if s.affected.contains(j) {
            assert(grown[s.affected.index_of(j)] == j);
        }
    }
}

} // verus!
