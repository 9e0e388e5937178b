//! The files on disk, as the sessions of a world share them.
use crate::files::{FilesView, LoadedWorkspaceFiles};
use crate::fx::{fx_entries, fx_map, fx_put};
use crate::inputs::{
    crate_views, root_views, AnalysisInputs, CrateData, CrateView, InputsView, RootView, SourceRoot,
};
use crate::ordered::{lemma_sorted_keys, listed, sorted_keys, OrderedMap};
use crate::paths::{common_path, common_path_prefix_len, LineEndings};
use crate::spawn_key::{ProcMacroSpawnKey, SpawnKeyView};
use crate::tokens::Tokens;
use rustc_hash::FxHashMap;
use std::sync::Arc;
use vstd::prelude::*;
use vstd::utf8::encode_utf8;

verus! {

#[derive(Debug)]
pub struct WorkspaceSummary {
    pub root: String,
    pub manifest: String,
    pub packages: usize,
    pub files: usize,
    pub proc_macro_server: bool,
}

/// What decides which macro server a workspace uses.
#[derive(Debug)]
pub struct ProcMacroFacts {
    /// The server of the workspace's sysroot, or why there is none; nothing without a sysroot.
    pub sysroot_server: Option<Result<String, String>>,
    pub toolchain: Option<String>,
    /// The environment that Cargo gives the workspace, where it is a Cargo workspace.
    pub cargo_env: Option<Vec<(String, String)>>,
    pub sysroot_root: Option<String>,
}

/// A macro server process: its key and its number.
#[derive(Debug)]
pub struct SharedProcMacroClient {
    pub key: ProcMacroSpawnKey,
    pub client: u64,
}

/// A workspace in the world. The project itself, its crate graph and its macros are kept outside
/// under the numbers given here.
pub struct LoadedWorkspace {
    pub summary: WorkspaceSummary,
    /// The canonical path of the workspace's root.
    pub root_key: String,
    pub project: u64,
    pub facts: ProcMacroFacts,
    pub source_roots: Vec<SourceRoot>,
    pub has_proc_macro_paths: bool,
    pub proc_macros: u64,
    pub proc_macros_loaded: bool,
    pub build_data_loaded: bool,
    pub files: Arc<LoadedWorkspaceFiles>,
    /// Changes whenever `files` does.
    pub files_version: u64,
    pub line_endings: Arc<OrderedMap<u32, LineEndings>>,
    pub source_root_parent_map: FxHashMap<u32, u32>,
    pub proc_macro_client: Option<Result<SharedProcMacroClient, String>>,
}

#[verifier::ext_equal]
pub struct SummaryView {
    pub root: Seq<char>,
    pub manifest: Seq<char>,
    pub packages: usize,
    pub files: usize,
    pub proc_macro_server: bool,
}

impl View for WorkspaceSummary {
    type V = SummaryView;

    open spec fn view(&self) -> SummaryView {
        SummaryView {
            root: self.root@,
            manifest: self.manifest@,
            packages: self.packages,
            files: self.files,
            proc_macro_server: self.proc_macro_server,
        }
    }
}

impl WorkspaceSummary {
    pub fn duplicate(&self) -> (r: Self)
        ensures
            r@ == self@,
    {
        WorkspaceSummary {
            root: self.root.clone(),
            manifest: self.manifest.clone(),
            packages: self.packages,
            files: self.files,
            proc_macro_server: self.proc_macro_server,
        }
    }
}

#[verifier::ext_equal]
pub struct FactsView {
    pub sysroot_server: Option<Result<Seq<char>, Seq<char>>>,
    pub toolchain: Option<Seq<char>>,
    pub cargo_env: Option<Seq<(Seq<char>, Seq<char>)>>,
    pub sysroot_root: Option<Seq<char>>,
}

impl View for ProcMacroFacts {
    type V = FactsView;

    open spec fn view(&self) -> FactsView {
        FactsView {
            sysroot_server: match self.sysroot_server {
                Some(Ok(path)) => Some(Ok(path@)),
                Some(Err(error)) => Some(Err(error@)),
                None => None,
            },
            toolchain: self.toolchain.deep_view(),
            cargo_env: self.cargo_env.deep_view(),
            sysroot_root: self.sysroot_root.deep_view(),
        }
    }
}

#[verifier::ext_equal]
pub struct ClientView {
    pub key: SpawnKeyView,
    pub client: u64,
}

impl View for SharedProcMacroClient {
    type V = ClientView;

    open spec fn view(&self) -> ClientView {
        ClientView { key: self.key.deep_view(), client: self.client }
    }
}

pub open spec fn client_view(client: Option<Result<SharedProcMacroClient, String>>) -> Option<Result<ClientView, Seq<char>>> {
    match client {
        Some(Ok(client)) => Some(Ok(client@)),
        Some(Err(error)) => Some(Err(error@)),
        None => None,
    }
}

impl ProcMacroFacts {
    pub fn duplicate(&self) -> (r: Self)
        ensures
            r@ == self@,
    {
        ProcMacroFacts {
            sysroot_server: match &self.sysroot_server {
                Some(Ok(path)) => Some(Ok(path.clone())),
                Some(Err(error)) => Some(Err(error.clone())),
                None => None,
            },
            toolchain: self.toolchain.duplicate(),
            cargo_env: self.cargo_env.duplicate(),
            sysroot_root: self.sysroot_root.duplicate(),
        }
    }
}

pub fn duplicate_client(client: &Option<Result<SharedProcMacroClient, String>>) -> (r: Option<
    Result<SharedProcMacroClient, String>,
>)
    ensures
        client_view(r) == client_view(*client),
{
    match client {
        Some(Ok(client)) => Some(Ok(SharedProcMacroClient { key: client.key.duplicate(), client: client.client })),
        Some(Err(error)) => Some(Err(error.clone())),
        None => None,
    }
}

#[verifier::ext_equal]
pub struct LoadedView {
    pub summary: SummaryView,
    pub root_key: Seq<char>,
    pub project: u64,
    pub facts: FactsView,
    pub source_roots: Seq<RootView>,
    pub has_proc_macro_paths: bool,
    pub proc_macros: u64,
    pub proc_macros_loaded: bool,
    pub build_data_loaded: bool,
    pub files: FilesView,
    pub files_version: u64,
    pub line_endings: Map<u32, LineEndings>,
    pub parents: Map<u32, u32>,
    pub client: Option<Result<ClientView, Seq<char>>>,
}

impl View for LoadedWorkspace {
    type V = LoadedView;

    open spec fn view(&self) -> LoadedView {
        LoadedView {
            summary: self.summary@,
            root_key: self.root_key@,
            project: self.project,
            facts: self.facts@,
            source_roots: root_views(self.source_roots@),
            has_proc_macro_paths: self.has_proc_macro_paths,
            proc_macros: self.proc_macros,
            proc_macros_loaded: self.proc_macros_loaded,
            build_data_loaded: self.build_data_loaded,
            files: self.files@,
            files_version: self.files_version,
            line_endings: self.line_endings@,
            parents: self.source_root_parent_map@,
            client: client_view(self.proc_macro_client),
        }
    }
}

pub open spec fn loaded_views(workspaces: Seq<LoadedWorkspace>) -> Seq<LoadedView> {
    workspaces.map_values(|w: LoadedWorkspace| w@)
}

/// The workspaces, what has been put into the database for them, and the crates found there.
pub struct WorldBase {
    pub workspaces: Vec<LoadedWorkspace>,
    pub inputs: AnalysisInputs,
    pub base_crates: Vec<CrateData>,
}

#[verifier::ext_equal]
pub struct BaseView {
    pub workspaces: Seq<LoadedView>,
    pub inputs: InputsView,
    pub crates: Seq<CrateView>,
}

impl View for WorldBase {
    type V = BaseView;

    open spec fn view(&self) -> BaseView {
        BaseView {
            workspaces: loaded_views(self.workspaces@),
            inputs: self.inputs@,
            crates: crate_views(self.base_crates@),
        }
    }
}

/// The file of a path in the first of the workspaces that has the path.
pub open spec fn base_file(ws: Seq<LoadedView>, indexes: Seq<usize>, key: Seq<char>) -> Option<u32>
    decreases indexes.len(),
{
    if indexes.len() == 0 {
        None
    } else if indexes[0] < ws.len() && ws[indexes[0] as int].files.file_id(key) is Some {
        ws[indexes[0] as int].files.file_id(key)
    } else {
        base_file(ws, indexes.drop_first(), key)
    }
}

/// Some of the workspaces says that the file exists.
pub open spec fn base_file_exists(ws: Seq<LoadedView>, indexes: Seq<usize>, file: u32) -> bool {
    exists|i: int|
        0 <= i < indexes.len() && (#[trigger] indexes[i]) < ws.len() && ws[indexes[i] as int].files.file_exists(file)
}

/// Some of the workspaces has the file.
pub open spec fn in_view(ws: Seq<LoadedView>, indexes: Seq<usize>, file: u32) -> bool {
    exists|i: int|
        0 <= i < indexes.len() && (#[trigger] indexes[i]) < ws.len() && ws[indexes[i] as int].files.contains_file(file)
}

/// The line endings of a file in the first of the workspaces where it exists with known endings.
pub open spec fn base_line_endings(ws: Seq<LoadedView>, indexes: Seq<usize>, file: u32) -> Option<LineEndings>
    decreases indexes.len(),
{
    if indexes.len() == 0 {
        None
    } else if indexes[0] < ws.len() && ws[indexes[0] as int].files.file_exists(file)
        && ws[indexes[0] as int].line_endings.contains_key(file) {
        Some(ws[indexes[0] as int].line_endings[file])
    } else {
        base_line_endings(ws, indexes.drop_first(), file)
    }
}

/// The file of a path, where it exists.
pub open spec fn existing_file(ws: Seq<LoadedView>, indexes: Seq<usize>, key: Seq<char>) -> Option<u32> {
    match base_file(ws, indexes, key) {
        Some(file) => if base_file_exists(ws, indexes, file) {
            Some(file)
        } else {
            None
        },
        None => None,
    }
}

/// The best source root so far for a path: how much path it shares, its number and its kind.
#[derive(Clone, Copy, Debug, PartialEq, Eq, Structural)]
pub struct BestRoot {
    pub shared: usize,
    pub root: u32,
    pub is_library: bool,
}

pub open spec fn better(best: Option<BestRoot>, candidate: BestRoot) -> Option<BestRoot> {
    if candidate.shared == 0 {
        best
    } else {
        match best {
            Some(b) => if candidate.shared > b.shared {
                Some(candidate)
            } else {
                best
            },
            None => Some(candidate),
        }
    }
}

/// What a file speaks for: the source root it is in.
pub open spec fn root_candidate(inputs: InputsView, files: FilesView, file: u32, key: Seq<char>) -> BestRoot {
    let root = inputs.file_roots[file];
    BestRoot {
        shared: common_path(encode_utf8(key), encode_utf8(files.by_id[file].path.key)) as usize,
        root,
        is_library: inputs.roots[root as int].is_library,
    }
}

pub open spec fn best_of_files(
    best: Option<BestRoot>,
    inputs: InputsView,
    files: FilesView,
    is_library: bool,
    key: Seq<char>,
    n: int,
) -> Option<BestRoot>
    decreases n,
{
    if n <= 0 {
        best
    } else {
        let before = best_of_files(best, inputs, files, is_library, key, n - 1);
        let file = sorted_keys::<u32>(files.by_id.dom())[n - 1];
        let candidate = root_candidate(inputs, files, file, key);
        if !files.file_exists(file) || candidate.is_library != is_library {
            before
        } else {
            better(before, candidate)
        }
    }
}

pub open spec fn best_of_workspaces(
    base: BaseView,
    indexes: Seq<usize>,
    classified: Seq<Option<bool>>,
    key: Seq<char>,
    n: int,
) -> Option<BestRoot>
    decreases n,
{
    if n <= 0 {
        None
    } else {
        let before = best_of_workspaces(base, indexes, classified, key, n - 1);
        let index = indexes[n - 1] as int;
        if index < base.workspaces.len() && classified[index] is Some {
            let files = base.workspaces[index].files;
            best_of_files(
                before,
                base.inputs,
                files,
                classified[index]->0,
                key,
                sorted_keys::<u32>(files.by_id.dom()).len() as int,
            )
        } else {
            before
        }
    }
}

/// The source root of a path, and whether it is a library's: the root of the file on disk, or else
/// the root of the file that shares most of the path, among the workspaces whose configuration
/// covers the path. `classified` tells for each workspace whether it covers the path, and as what.
pub open spec fn source_root_for_path(
    base: BaseView,
    indexes: Seq<usize>,
    key: Seq<char>,
    classified: Seq<Option<bool>>,
) -> Option<(u32, bool)> {
    match existing_file(base.workspaces, indexes, key) {
        Some(file) => Some((base.inputs.file_roots[file], base.inputs.roots[base.inputs.file_roots[file] as int].is_library)),
        None => match best_of_workspaces(base, indexes, classified, key, indexes.len() as int) {
            Some(best) => Some((best.root, best.is_library)),
            None => None,
        },
    }
}

impl BaseView {
    /// The database knows a source root and a text for the file.
    pub open spec fn has_file(self, f: u32) -> bool {
        self.inputs.file_roots.contains_key(f) && self.inputs.texts.contains_key(f)
    }

    /// The database knows every file of a workspace's source root, and the root files of crates are
    /// in source roots.
    pub open spec fn roots_readable(self) -> bool {
        &&& self.inputs.readable()
        &&& forall|w: int, r: int, f: u32|
            0 <= w < self.workspaces.len() && 0 <= r < self.workspaces[w].source_roots.len()
                && #[trigger] self.workspaces[w].source_roots[r].files.contains_key(f) ==> self.has_file(f)
        &&& forall|w: int, r: int|
            0 <= w < self.workspaces.len() && 0 <= r < self.workspaces[w].source_roots.len()
                ==> (#[trigger] self.workspaces[w].source_roots[r]).files.dom().finite()
        &&& forall|c: int|
            0 <= c < self.crates.len() ==> self.inputs.file_roots.contains_key((#[trigger] self.crates[c]).root_file)
        &&& forall|c: int, r: int|
            0 <= c < self.crates.len() && 0 <= r < self.crates[c].transitive_rev_deps.len()
                ==> self.inputs.file_roots.contains_key(#[trigger] self.crates[c].transitive_rev_deps[r])
    }

    /// The database knows every file that exists too.
    pub open spec fn readable(self) -> bool {
        &&& forall|w: int, f: u32|
            0 <= w < self.workspaces.len() && #[trigger] self.workspaces[w].files.file_exists(f) ==> self.has_file(f)
        &&& self.roots_readable()
    }
}

proof fn lemma_best_of_files(
    best: Option<BestRoot>,
    inputs: InputsView,
    files: FilesView,
    is_library: bool,
    key: Seq<char>,
    n: int,
)
    requires
        inputs.readable(),
        forall|f: u32| #[trigger] files.file_exists(f) ==> inputs.file_roots.contains_key(f),
        best matches Some(b) ==> b.root < inputs.roots.len(),
    ensures
        best_of_files(best, inputs, files, is_library, key, n) matches Some(b) ==> b.root < inputs.roots.len(),
    decreases n,
{
    if n > 0 {
        lemma_best_of_files(best, inputs, files, is_library, key, n - 1);
        let file = sorted_keys::<u32>(files.by_id.dom())[n - 1];
        if files.file_exists(file) {
            assert(inputs.file_roots.contains_key(file));
        }
    }
}

proof fn lemma_best_of_workspaces(base: BaseView, indexes: Seq<usize>, classified: Seq<Option<bool>>, key: Seq<char>, n: int)
    requires
        base.readable(),
    ensures
        best_of_workspaces(base, indexes, classified, key, n) matches Some(b) ==> b.root < base.inputs.roots.len(),
    decreases n,
{
    if n > 0 {
        lemma_best_of_workspaces(base, indexes, classified, key, n - 1);
        let index = indexes[n - 1] as int;
        if index < base.workspaces.len() && classified[index] is Some {
            let files = base.workspaces[index].files;
            assert forall|f: u32| #[trigger] files.file_exists(f) implies base.inputs.file_roots.contains_key(f) by {
                assert(base.workspaces[index].files.file_exists(f));
            }
            lemma_best_of_files(
                best_of_workspaces(base, indexes, classified, key, n - 1),
                base.inputs,
                files,
                classified[index]->0,
                key,
                sorted_keys::<u32>(files.by_id.dom()).len() as int,
            );
        }
    }
}

/// A file that exists for some of the workspaces can be read.
pub proof fn lemma_existing(base: BaseView, indexes: Seq<usize>, file: u32)
    requires
        base.readable(),
        base_file_exists(base.workspaces, indexes, file),
    ensures
        base.inputs.file_roots.contains_key(file),
        base.inputs.texts.contains_key(file),
        base.inputs.file_roots[file] < base.inputs.roots.len(),
{
    let i = choose|i: int|
        0 <= i < indexes.len() && (#[trigger] indexes[i]) < base.workspaces.len() && base.workspaces[indexes[i] as int].files.file_exists(
            file,
        );
    assert(base.workspaces[indexes[i] as int].files.file_exists(file));
}

/// The source root of a path is one that is there.
pub proof fn lemma_source_root_for_path(base: BaseView, indexes: Seq<usize>, key: Seq<char>, classified: Seq<Option<bool>>)
    requires
        base.readable(),
    ensures
        source_root_for_path(base, indexes, key, classified) matches Some(found) ==> found.0 < base.inputs.roots.len(),
{
    match existing_file(base.workspaces, indexes, key) {
        Some(file) => {
            lemma_existing(base, indexes, file);
        },
        None => {
            lemma_best_of_workspaces(base, indexes, classified, key, indexes.len() as int);
        },
    }
}

impl WorldBase {
    pub fn base_file(&self, indexes: &Vec<usize>, key: &String) -> (r: Option<u32>)
        ensures
            r == base_file(self@.workspaces, indexes@, key@),
    {
        let mut i: usize = 0;
        proof {
            assert(indexes@.skip(0) =~= indexes@);
        }
        while i < indexes.len()
            invariant
                i <= indexes.len(),
                base_file(self@.workspaces, indexes@, key@) == base_file(self@.workspaces, indexes@.skip(i as int), key@),
            decreases indexes.len() - i,
        {
            proof {
                assert(indexes@.skip(i as int).drop_first() =~= indexes@.skip(i + 1));
            }
            let index: usize = indexes[i];
            if index < self.workspaces.len() {
                let file = self.workspaces[index].files.file_id(key);
                if file.is_some() {
                    return file;
                }
            }
            i = i + 1;
        }
        None
    }

    pub fn base_file_exists(&self, indexes: &Vec<usize>, file: u32) -> (r: bool)
        ensures
            r == base_file_exists(self@.workspaces, indexes@, file),
    {
        let mut i: usize = 0;
        while i < indexes.len()
            invariant
                i <= indexes.len(),
                forall|j: int|
                    0 <= j < i && (#[trigger] indexes@[j]) < self@.workspaces.len()
                        ==> !self@.workspaces[indexes@[j] as int].files.file_exists(file),
            decreases indexes.len() - i,
        {
            let index: usize = indexes[i];
            if index < self.workspaces.len() {
                if self.workspaces[index].files.file_exists(file) {
                    proof {
                        assert(indexes@[i as int] < self@.workspaces.len());
                    }
                    return true;
                }
            }
            i = i + 1;
        }
        false
    }

    /// Whether some of the workspaces has the file.
    pub fn in_view(&self, indexes: &Vec<usize>, file: u32) -> (r: bool)
        ensures
            r == in_view(self@.workspaces, indexes@, file),
    {
        let mut i: usize = 0;
        while i < indexes.len()
            invariant
                i <= indexes.len(),
                forall|j: int|
                    0 <= j < i && (#[trigger] indexes@[j]) < self@.workspaces.len()
                        ==> !self@.workspaces[indexes@[j] as int].files.contains_file(file),
            decreases indexes.len() - i,
        {
            let index: usize = indexes[i];
            if index < self.workspaces.len() {
                if self.workspaces[index].files.contains_file(file) {
                    proof {
                        assert(indexes@[i as int] < self@.workspaces.len());
                    }
                    return true;
                }
            }
            i = i + 1;
        }
        false
    }

    pub fn base_line_endings(&self, indexes: &Vec<usize>, file: u32) -> (r: Option<LineEndings>)
        ensures
            r == base_line_endings(self@.workspaces, indexes@, file),
    {
        let mut i: usize = 0;
        proof {
            assert(indexes@.skip(0) =~= indexes@);
        }
        while i < indexes.len()
            invariant
                i <= indexes.len(),
                base_line_endings(self@.workspaces, indexes@, file) == base_line_endings(
                    self@.workspaces,
                    indexes@.skip(i as int),
                    file,
                ),
            decreases indexes.len() - i,
        {
            proof {
                assert(indexes@.skip(i as int).drop_first() =~= indexes@.skip(i + 1));
            }
            let index: usize = indexes[i];
            if index < self.workspaces.len() && self.workspaces[index].files.file_exists(file) {
                match self.workspaces[index].line_endings.get(&file) {
                    Some(endings) => {
                        return Some(*endings);
                    },
                    None => {},
                }
            }
            i = i + 1;
        }
        None
    }

    /// The file of a path, where it exists.
    pub fn existing_file(&self, indexes: &Vec<usize>, key: &String) -> (r: Option<u32>)
        ensures
            r == existing_file(self@.workspaces, indexes@, key@),
    {
        match self.base_file(indexes, key) {
            Some(file) => if self.base_file_exists(indexes, file) {
                Some(file)
            } else {
                None
            },
            None => None,
        }
    }

    /// The source root that a file is in.
    pub fn source_root_for_file(&self, file: u32) -> (r: u32)
        requires
            self@.inputs.file_roots.contains_key(file),
        ensures
            r == self@.inputs.file_roots[file],
    {
        match self.inputs.file_roots.get(&file) {
            Some(root) => *root,
            None => 0,
        }
    }

    fn best_of_files(
        &self,
        best: Option<BestRoot>,
        files: &LoadedWorkspaceFiles,
        is_library: bool,
        key: &String,
    ) -> (r: Option<BestRoot>)
        requires
            self@.readable(),
            forall|f: u32| #[trigger] files@.file_exists(f) ==> self@.inputs.file_roots.contains_key(f),
        ensures
            r == best_of_files(
                best,
                self@.inputs,
                files@,
                is_library,
                key@,
                sorted_keys::<u32>(files@.by_id.dom()).len() as int,
            ),
    {
        let n = files.files_by_id.len();
        let mut best = best;
        let ghost start = best;
        let mut i: usize = 0;
        proof {
            lemma_sorted_keys(files.files_by_id);
            assert(files@.by_id.dom() =~= files.files_by_id@.dom());
        }
        while i < n
            invariant
                i <= n,
                n == files.files_by_id.keys().len(),
                listed(files.files_by_id),
                self@.readable(),
                forall|f: u32| #[trigger] files@.file_exists(f) ==> self@.inputs.file_roots.contains_key(f),
                files.files_by_id.keys() == sorted_keys::<u32>(files@.by_id.dom()),
                best == best_of_files(start, self@.inputs, files@, is_library, key@, i as int),
            decreases n - i,
        {
            let file: u32 = *files.files_by_id.key_at(i);
            let entry = files.files_by_id.value_at(i);
            proof {
                assert(files.files_by_id@.contains_key(files.files_by_id.keys()[i as int]));
                assert(files@.by_id[file].path == entry.path@);
                assert(files@.file_exists(file) == entry.exists);
            }
            if entry.exists {
                let root = self.source_root_for_file(file);
                let root_is_library = self.inputs.roots[root as usize].is_library;
                if root_is_library == is_library {
                    let shared = common_path_prefix_len(key.as_str(), entry.path.key.as_str());
                    proof {
                        assert(root_candidate(self@.inputs, files@, file, key@) == (BestRoot {
                            shared,
                            root,
                            is_library: root_is_library,
                        }));
                    }
                    if shared != 0 {
                        let replace = match best {
                            Some(b) => shared > b.shared,
                            None => true,
                        };
                        if replace {
                            best = Some(BestRoot { shared, root, is_library: root_is_library });
                        }
                    }
                }
            }
            i = i + 1;
        }
        best
    }

    /// The source root of a path, and whether it is a library's.
    pub fn source_root_for_path(
        &self,
        indexes: &Vec<usize>,
        key: &String,
        classified: &Vec<Option<bool>>,
    ) -> (r: Option<(u32, bool)>)
        requires
            self@.readable(),
            classified.len() == self.workspaces.len(),
        ensures
            r == source_root_for_path(self@, indexes@, key@, classified@),
    {
        match self.existing_file(indexes, key) {
            Some(file) => {
                proof {
                    lemma_existing(self@, indexes@, file);
                }
                let root = self.source_root_for_file(file);
                return Some((root, self.inputs.roots[root as usize].is_library));
            },
            None => {},
        }
        let mut best: Option<BestRoot> = None;
        let mut i: usize = 0;
        while i < indexes.len()
            invariant
                i <= indexes.len(),
                self@.readable(),
                classified.len() == self.workspaces.len(),
                existing_file(self@.workspaces, indexes@, key@) is None,
                best == best_of_workspaces(self@, indexes@, classified@, key@, i as int),
            decreases indexes.len() - i,
        {
            let index: usize = indexes[i];
            if index < self.workspaces.len() {
                match classified[index] {
                    Some(is_library) => {
                        proof {
                            let files = self.workspaces@[index as int].files@;
                            assert forall|f: u32| #[trigger] files.file_exists(f) implies self@.inputs.file_roots.contains_key(f) by {
                                assert(self@.workspaces[index as int].files.file_exists(f));
                            }
                        }
                        best = self.best_of_files(best, &self.workspaces[index].files, is_library, key);
                    },
                    None => {},
                }
            }
            i = i + 1;
        }
        match best {
            Some(best) => Some((best.root, best.is_library)),
            None => None,
        }
    }
}

pub open spec fn offset_of(ws: Seq<LoadedView>, n: int) -> int
    decreases n,
{
    if n <= 0 {
        0
    } else {
        offset_of(ws, n - 1) + ws[n - 1].source_roots.len()
    }
}

/// A workspace's map of source roots to their parents, by the roots' numbers in the world.
pub open spec fn shifted(m: Map<u32, u32>, offset: int) -> Map<u32, u32> {
    Map::new(
        |k: u32| k >= offset && m.contains_key((k - offset) as u32),
        |k: u32| (m[(k - offset) as u32] + offset) as u32,
    )
}

/// The parents of the source roots of the workspaces in view.
pub open spec fn parent_map(ws: Seq<LoadedView>, indexes: Seq<usize>, n: int) -> Map<u32, u32>
    decreases n,
{
    if n <= 0 {
        Map::empty()
    } else {
        let before = parent_map(ws, indexes, n - 1);
        if indexes.contains((n - 1) as usize) {
            before.union_prefer_right(shifted(ws[n - 1].parents, offset_of(ws, n - 1)))
        } else {
            before
        }
    }
}

/// The numbers of a workspace's roots fit behind those of the workspaces before it.
pub open spec fn offsets_fit(ws: Seq<LoadedView>) -> bool {
    &&& offset_of(ws, ws.len() as int) <= u32::MAX
    &&& forall|w: int, k: u32|
        0 <= w < ws.len() && #[trigger] ws[w].parents.contains_key(k) ==> k + offset_of(ws, w) <= u32::MAX
            && ws[w].parents[k] + offset_of(ws, w) <= u32::MAX
}

proof fn lemma_offset_monotone(ws: Seq<LoadedView>, i: int, j: int)
    requires
        0 <= i <= j <= ws.len(),
    ensures
        offset_of(ws, i) <= offset_of(ws, j),
    decreases j,
{
    if i < j {
        lemma_offset_monotone(ws, i, j - 1);
    }
}

impl WorldBase {
    /// The parents of the source roots of the workspaces in view, by the roots' numbers in the
    /// world.
    pub fn source_root_parent_map(&self, indexes: &Vec<usize>) -> (r: FxHashMap<u32, u32>)
        requires
            offsets_fit(self@.workspaces),
        ensures
            r@ == parent_map(self@.workspaces, indexes@, self@.workspaces.len() as int),
    {
        let mut map = fx_map();
        let mut offset: u32 = 0;
        let mut i: usize = 0;
        let ghost ws = self@.workspaces;
        proof {
            assert(map@ =~= Map::empty());
        }
        while i < self.workspaces.len()
            invariant
                i <= self.workspaces.len(),
                ws == self@.workspaces,
                offsets_fit(ws),
                offset == offset_of(ws, i as int),
                map@ == parent_map(ws, indexes@, i as int),
            decreases self.workspaces.len() - i,
        {
            proof {
                lemma_offset_monotone(ws, i + 1, ws.len() as int);
            }
            let workspace = &self.workspaces[i];
            if contains_index(indexes, i) {
                let entries = fx_entries(&workspace.source_root_parent_map);
                let ghost own = workspace@.parents;
                let ghost before = map@;
                let mut k: usize = 0;
                while k < entries.len()
                    invariant
                        k <= entries.len(),
                        own == ws[i as int].parents,
                        0 <= i < ws.len(),
                        offsets_fit(ws),
                        offset == offset_of(ws, i as int),
                        forall|x: int| 0 <= x < entries@.len() ==> own.contains_key((#[trigger] entries@[x]).0) && own[entries@[x].0] == entries@[x].1,
                        forall|x: int, y: int| 0 <= x < y < entries@.len() ==> (#[trigger] entries@[x]).0 != (#[trigger] entries@[y]).0,
                        forall|f: u32|
                            #[trigger] map@.contains_key(f) <==> before.contains_key(f) || exists|x: int|
                                0 <= x < k && (#[trigger] entries@[x]).0 + offset == f,
                        forall|x: int| 0 <= x < k ==> map@.contains_key(((#[trigger] entries@[x]).0 + offset) as u32) && map@[(entries@[x].0
                            + offset) as u32] == entries@[x].1 + offset,
                        forall|f: u32|
                            #[trigger] map@.contains_key(f) && (forall|x: int| 0 <= x < k ==> (#[trigger] entries@[x]).0 + offset != f)
                                ==> map@[f] == before[f],
                    decreases entries.len() - k,
                {
                    let entry = entries[k];
                    proof {
                        assert(own.contains_key(entries@[k as int].0));
                        assert(ws[i as int].parents.contains_key(entry.0));
                    }
                    let ghost here = map@;
                    fx_put(&mut map, entry.0 + offset, entry.1 + offset);
                    proof {
                        let added = (entry.0 + offset) as u32;
                        assert(map@ == here.insert(added, (entry.1 + offset) as u32));
                        assert forall|f: u32|
                            #[trigger] map@.contains_key(f) <==> before.contains_key(f) || exists|x: int|
                                0 <= x < k + 1 && (#[trigger] entries@[x]).0 + offset == f by {
                            if f == added {
                                assert(entries@[k as int].0 + offset == f);
                            } else if here.contains_key(f) && !before.contains_key(f) {
                                let x = choose|x: int| 0 <= x < k && (#[trigger] entries@[x]).0 + offset == f;
                                assert(entries@[x].0 + offset == f);
                            }
                        }
                        assert forall|x: int| 0 <= x < k + 1 implies map@.contains_key(((#[trigger] entries@[x]).0 + offset) as u32)
                            && map@[(entries@[x].0 + offset) as u32] == entries@[x].1 + offset by {
                            assert(own.contains_key(entries@[x].0));
                            assert(ws[i as int].parents.contains_key(entries@[x].0));
                            if x < k {
                                assert(entries@[x].0 != entries@[k as int].0);
                            }
                        }
                        assert forall|f: u32|
                            #[trigger] map@.contains_key(f) && (forall|x: int| 0 <= x < k + 1 ==> (#[trigger] entries@[x]).0 + offset != f) implies map@[f]
                            == before[f] by {
                            assert(entries@[k as int].0 + offset != f);
                            assert(here.contains_key(f));
                        }
                    }
                    k = k + 1;
                }
                proof {
                    let right = shifted(own, offset as int);
                    assert forall|f: u32| right.contains_key(f) <==> exists|x: int| 0 <= x < entries@.len() && (#[trigger] entries@[x]).0 + offset == f by {
                        if right.contains_key(f) {
                            let key = (f - offset) as u32;
                            assert(own.contains_key(key));
                            let x = entries@.index_of((key, own[key]));
                            assert(entries@[x].0 + offset == f);
                        }
                        if exists|x: int| 0 <= x < entries@.len() && (#[trigger] entries@[x]).0 + offset == f {
                            let x = choose|x: int| 0 <= x < entries@.len() && (#[trigger] entries@[x]).0 + offset == f;
                            assert(own.contains_key(entries@[x].0));
                            assert((f - offset) as u32 == entries@[x].0);
                        }
                    }
                    assert forall|f: u32| map@.contains_key(f) implies map@[f] == before.union_prefer_right(right)[f] by {
                        if right.contains_key(f) {
                            let x = choose|x: int| 0 <= x < entries@.len() && (#[trigger] entries@[x]).0 + offset == f;
                            assert((entries@[x].0 + offset) as u32 == f);
                            assert((f - offset) as u32 == entries@[x].0);
                        }
                    }
                    assert(map@ =~= before.union_prefer_right(right));
                }
            }
            offset = offset + workspace.source_roots.len() as u32;
            i = i + 1;
        }
        map
    }
}

pub fn contains_index(list: &Vec<usize>, index: usize) -> (r: bool)
    ensures
        r == list@.contains(index),
{
    let mut i: usize = 0;
    while i < list.len()
        invariant
            i <= list.len(),
            forall|j: int| 0 <= j < i ==> list@[j] != index,
        decreases list.len() - i,
    {
        if list[i] == index {
            proof {
                assert(list@[i as int] == index);
            }
            return true;
        }
        i = i + 1;
    }
    false
}

/// The parents of source roots are told by the roots' numbers in the world: those of a workspace in
/// view come behind the roots of all workspaces before it. Other workspaces have no part in it.
pub proof fn law_parents_are_those_of_workspaces_in_view(ws: Seq<LoadedView>, indexes: Seq<usize>, n: int, root: u32)
    requires
        0 <= n <= ws.len(),
        ws.len() <= usize::MAX,
        offsets_fit(ws),
    ensures
        ({
            let m = parent_map(ws, indexes, n);
            &&& m.contains_key(root) ==> exists|i: int, k: u32|
                0 <= i < n && indexes.contains(i as usize) && #[trigger] ws[i].parents.contains_key(k) && root == k + offset_of(ws, i)
                    && m[root] == ws[i].parents[k] + offset_of(ws, i)
            &&& forall|i: int, k: u32|
                0 <= i < n && indexes.contains(i as usize) && #[trigger] ws[i].parents.contains_key(k) && root == k + offset_of(ws, i)
                    ==> m.contains_key(root)
        }),
    decreases n,
{
    if n > 0 {
        law_parents_are_those_of_workspaces_in_view(ws, indexes, n - 1, root);
        let before = parent_map(ws, indexes, n - 1);
        let offset = offset_of(ws, n - 1);
        let own = shifted(ws[n - 1].parents, offset);
        let m = parent_map(ws, indexes, n);
        lemma_offset_not_negative(ws, n - 1);
        if indexes.contains((n - 1) as usize) && own.contains_key(root) {
            let k = (root - offset) as u32;
            assert(ws[n - 1].parents.contains_key(k));
            assert(m[root] == own[root]);
        } else if m.contains_key(root) {
            assert(before.contains_key(root) && m[root] == before[root]);
            let (i, k) = choose|i: int, k: u32|
                0 <= i < n - 1 && indexes.contains(i as usize) && #[trigger] ws[i].parents.contains_key(k) && root == k + offset_of(ws, i)
                    && before[root] == ws[i].parents[k] + offset_of(ws, i);
            assert(ws[i].parents.contains_key(k));
        }
        assert forall|i: int, k: u32|
            0 <= i < n && indexes.contains(i as usize) && #[trigger] ws[i].parents.contains_key(k) && root == k + offset_of(ws, i) implies m.contains_key(
            root,
        ) by {
            if i == n - 1 {
                assert(own.contains_key(root));
            } else {
                assert(before.contains_key(root));
            }
        }
    }
}

proof fn lemma_offset_not_negative(ws: Seq<LoadedView>, n: int)
    ensures
        offset_of(ws, n) >= 0,
    decreases n,
{
    if n > 0 {
        lemma_offset_not_negative(ws, n - 1);
    }
}

/// The source roots of a workspace come behind those of the workspace before it.
pub proof fn law_roots_come_one_workspace_after_another(ws: Seq<LoadedView>, i: int)
    requires
        0 <= i < ws.len(),
    ensures
        offset_of(ws, 0) == 0,
        offset_of(ws, i + 1) == offset_of(ws, i) + ws[i].source_roots.len(),
{
}

} // verus!
