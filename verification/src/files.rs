//! The files of a workspace, and how a session finds files.
use crate::fx::fx_get;
use crate::ordered::OrderedMap;
use crate::paths::{FilePath, LineEndings, PathView};
use crate::shared::{map_replica, Replica};
use rustc_hash::FxHashMap;
use std::sync::Arc;
use vstd::prelude::*;

verus! {

#[derive(Debug)]
pub struct LoadedWorkspaceFile {
    pub path: FilePath,
    pub exists: bool,
}

impl Replica for LoadedWorkspaceFile {
    fn replica(&self) -> (r: Self) {
        LoadedWorkspaceFile { path: self.path.replica(), exists: self.exists }
    }
}

#[verifier::ext_equal]
pub struct FileEntryView {
    pub path: PathView,
    pub exists: bool,
}

/// The files that a workspace has been loaded with, by number and by canonical path.
pub struct LoadedWorkspaceFiles {
    pub files_by_id: OrderedMap<u32, LoadedWorkspaceFile>,
    pub file_ids_by_path: OrderedMap<String, u32>,
}

#[verifier::ext_equal]
pub struct FilesView {
    pub by_id: Map<u32, FileEntryView>,
    pub by_path: Map<Seq<char>, u32>,
}

pub open spec fn file_entry_view(file: LoadedWorkspaceFile) -> FileEntryView {
    FileEntryView { path: file.path@, exists: file.exists }
}

impl View for LoadedWorkspaceFiles {
    type V = FilesView;

    open spec fn view(&self) -> FilesView {
        FilesView {
            by_id: self.files_by_id@.map_values(|f: LoadedWorkspaceFile| file_entry_view(f)),
            by_path: self.file_ids_by_path@,
        }
    }
}

impl FilesView {
    /// Every path leads to a file that is there.
    pub open spec fn wf(self) -> bool {
        forall|k: Seq<char>| #[trigger] self.by_path.contains_key(k) ==> self.by_id.contains_key(self.by_path[k])
    }

    pub open spec fn file_exists(self, file: u32) -> bool {
        self.by_id.contains_key(file) && self.by_id[file].exists
    }

    pub open spec fn contains_file(self, file: u32) -> bool {
        self.by_id.contains_key(file)
    }

    pub open spec fn file_id(self, key: Seq<char>) -> Option<u32> {
        if self.by_path.contains_key(key) {
            Some(self.by_path[key])
        } else {
            None
        }
    }

    pub open spec fn path(self, file: u32) -> Option<PathView> {
        if self.by_id.contains_key(file) {
            Some(self.by_id[file].path)
        } else {
            None
        }
    }

    pub open spec fn inserted(self, file: u32, path: PathView, exists: bool) -> FilesView {
        FilesView {
            by_id: self.by_id.insert(file, FileEntryView { path, exists }),
            by_path: self.by_path.insert(path.key, file),
        }
    }

    pub open spec fn marked(self, file: u32, exists: bool) -> FilesView {
        if self.by_id.contains_key(file) {
            FilesView { by_id: self.by_id.insert(file, FileEntryView { path: self.by_id[file].path, exists }), ..self }
        } else {
            self
        }
    }
}

impl Clone for LoadedWorkspaceFiles {
    fn clone(&self) -> (r: Self)
        ensures
            r@ == self@,
    {
        let r = LoadedWorkspaceFiles {
            files_by_id: map_replica(&self.files_by_id),
            file_ids_by_path: map_replica(&self.file_ids_by_path),
        };
        proof {
            assert(r@ =~= self@);
        }
        r
    }
}

/// A file as the loader listed it, under the loader's own number.
#[derive(Debug)]
pub struct LoadedFile {
    pub file: u32,
    pub path: FilePath,
    pub exists: bool,
}

/// The files that the loader listed, under the numbers given to them. Files without a number are
/// left out.
pub open spec fn numbered(files: Seq<LoadedFile>, numbers: Map<u32, u32>) -> FilesView
    decreases files.len(),
{
    if files.len() == 0 {
        FilesView { by_id: Map::empty(), by_path: Map::empty() }
    } else {
        let rest = numbered(files.drop_last(), numbers);
        let file = files.last();
        if numbers.contains_key(file.file) {
            rest.inserted(numbers[file.file], file.path@, file.exists)
        } else {
            rest
        }
    }
}

impl LoadedWorkspaceFiles {
    pub fn empty() -> (r: Self)
        ensures
            r@ == (FilesView { by_id: Map::empty(), by_path: Map::empty() }),
    {
        let r = LoadedWorkspaceFiles { files_by_id: OrderedMap::new(), file_ids_by_path: OrderedMap::new() };
        proof {
            assert(r@.by_id =~= Map::empty());
        }
        r
    }

    pub fn from_vfs(vfs: &Vec<LoadedFile>, file_id_map: &FxHashMap<u32, u32>) -> (r: Self)
        ensures
            r@ == numbered(vfs@, file_id_map@),
    {
        let mut r = LoadedWorkspaceFiles::empty();
        let mut i: usize = 0;
        proof {
            assert(vfs@.take(0) =~= Seq::empty());
            assert(r@ =~= numbered(Seq::empty(), file_id_map@));
        }
        while i < vfs.len()
            invariant
                i <= vfs.len(),
                r@ == numbered(vfs@.take(i as int), file_id_map@),
            decreases vfs.len() - i,
        {
            proof {
                assert(vfs@.take(i + 1).drop_last() =~= vfs@.take(i as int));
                assert(vfs@.take(i + 1).last() == vfs@[i as int]);
            }
            match fx_get(file_id_map, vfs[i].file) {
                Some(id) => {
                    r.insert(id, vfs[i].path.replica(), vfs[i].exists);
                },
                None => {},
            }
            i = i + 1;
        }
        proof {
            assert(vfs@.take(i as int) =~= vfs@);
        }
        r
    }

    pub fn insert(&mut self, file_id: u32, path: FilePath, exists: bool)
        ensures
            final(self)@ == old(self)@.inserted(file_id, path@, exists),
    {
        self.file_ids_by_path.insert(path.key.clone(), file_id);
        self.files_by_id.insert(file_id, LoadedWorkspaceFile { path, exists });
        proof {
            assert(self@ =~= old(self)@.inserted(file_id, path@, exists));
        }
    }

    pub fn set_exists(&mut self, file_id: u32, exists: bool)
        ensures
            final(self)@ == old(self)@.marked(file_id, exists),
    {
        match self.files_by_id.remove(&file_id) {
            Some(file) => {
                let mut file = file;
                file.exists = exists;
                self.files_by_id.insert(file_id, file);
            },
            None => {},
        }
        proof {
            assert(self@ =~= old(self)@.marked(file_id, exists));
        }
    }

    pub fn file_id(&self, key: &String) -> (r: Option<u32>)
        ensures
            r == self@.file_id(key@),
    {
        match self.file_ids_by_path.get(key) {
            Some(id) => Some(*id),
            None => None,
        }
    }

    pub fn file_exists(&self, file_id: u32) -> (r: bool)
        ensures
            r == self@.file_exists(file_id),
    {
        match self.files_by_id.get(&file_id) {
            Some(file) => file.exists,
            None => false,
        }
    }

    pub fn contains_file(&self, file_id: u32) -> (r: bool)
        ensures
            r == self@.contains_file(file_id),
    {
        self.files_by_id.contains_key(&file_id)
    }

    pub fn path(&self, file_id: u32) -> (r: Option<&FilePath>)
        ensures
            r matches Some(p) ==> self@.path(file_id) == Some(p@),
            r is None ==> self@.path(file_id) is None,
    {
        match self.files_by_id.get(&file_id) {
            Some(file) => Some(&file.path),
            None => None,
        }
    }
}

/// The line endings of the files that a session sees.
pub struct SharedLineEndings {
    pub workspaces: Vec<(Arc<LoadedWorkspaceFiles>, Arc<OrderedMap<u32, LineEndings>>)>,
    pub overlay: OrderedMap<u32, LineEndings>,
}

/// The line endings that the workspaces know for a file: those of the first in which it exists.
pub open spec fn base_endings(
    workspaces: Seq<(Arc<LoadedWorkspaceFiles>, Arc<OrderedMap<u32, LineEndings>>)>,
    file: u32,
) -> Option<LineEndings>
    decreases workspaces.len(),
{
    if workspaces.len() == 0 {
        None
    } else if workspaces[0].0@.file_exists(file) && workspaces[0].1@.contains_key(file) {
        Some(workspaces[0].1@[file])
    } else {
        base_endings(workspaces.drop_first(), file)
    }
}

impl SharedLineEndings {
    pub fn get(&self, file_id: u32) -> (r: Option<LineEndings>)
        ensures
            r == (match base_endings(self.workspaces@, file_id) {
                Some(endings) => Some(endings),
                None => if self.overlay@.contains_key(file_id) {
                    Some(self.overlay@[file_id])
                } else {
                    None
                },
            }),
    {
        let mut i: usize = 0;
        proof {
            assert(self.workspaces@.skip(0) =~= self.workspaces@);
        }
        while i < self.workspaces.len()
            invariant
                i <= self.workspaces.len(),
                base_endings(self.workspaces@, file_id) == base_endings(self.workspaces@.skip(i as int), file_id),
            decreases self.workspaces.len() - i,
        {
            proof {
                assert(self.workspaces@.skip(i as int).drop_first() =~= self.workspaces@.skip(i + 1));
            }
            if self.workspaces[i].0.file_exists(file_id) {
                match self.workspaces[i].1.get(&file_id) {
                    Some(endings) => {
                        return Some(*endings);
                    },
                    None => {},
                }
            }
            i = i + 1;
        }
        match self.overlay.get(&file_id) {
            Some(endings) => Some(*endings),
            None => None,
        }
    }
}

/// How a session finds files: its own overlay first, then the files of its workspaces.
pub struct SharedFileMappings {
    pub workspaces: Vec<Arc<LoadedWorkspaceFiles>>,
    pub overlay_by_path: OrderedMap<String, u32>,
    pub overlay_by_file: OrderedMap<u32, FilePath>,
}

/// The file of a path in the first workspace that has the path.
pub open spec fn base_file_of(workspaces: Seq<Arc<LoadedWorkspaceFiles>>, key: Seq<char>) -> Option<u32>
    decreases workspaces.len(),
{
    if workspaces.len() == 0 {
        None
    } else if workspaces[0]@.file_id(key) is Some {
        workspaces[0]@.file_id(key)
    } else {
        base_file_of(workspaces.drop_first(), key)
    }
}

/// The path of a file in the first workspace that has the file.
pub open spec fn base_path_of(workspaces: Seq<Arc<LoadedWorkspaceFiles>>, file: u32) -> Option<PathView>
    decreases workspaces.len(),
{
    if workspaces.len() == 0 {
        None
    } else if workspaces[0]@.path(file) is Some {
        workspaces[0]@.path(file)
    } else {
        base_path_of(workspaces.drop_first(), file)
    }
}

pub open spec fn some_has(workspaces: Seq<Arc<LoadedWorkspaceFiles>>, file: u32) -> bool {
    exists|i: int| 0 <= i < workspaces.len() && (#[trigger] workspaces[i])@.contains_file(file)
}

pub open spec fn some_holds(workspaces: Seq<Arc<LoadedWorkspaceFiles>>, file: u32) -> bool {
    exists|i: int| 0 <= i < workspaces.len() && (#[trigger] workspaces[i])@.file_exists(file)
}

impl SharedFileMappings {
    pub open spec fn lookup(self, key: Seq<char>) -> Option<u32> {
        if self.overlay_by_path@.contains_key(key) {
            Some(self.overlay_by_path@[key])
        } else {
            base_file_of(self.workspaces@, key)
        }
    }

    pub fn file_id(&self, path: &FilePath) -> (r: Option<u32>)
        ensures
            r == self.lookup(path@.key),
    {
        match self.overlay_by_path.get(&path.key) {
            Some(file) => Some(*file),
            None => self.base_file_id(path),
        }
    }

    /// The file on disk, whatever the session's overlay holds.
    pub fn base_file_id(&self, path: &FilePath) -> (r: Option<u32>)
        ensures
            r == base_file_of(self.workspaces@, path@.key),
    {
        let mut i: usize = 0;
        proof {
            assert(self.workspaces@.skip(0) =~= self.workspaces@);
        }
        while i < self.workspaces.len()
            invariant
                i <= self.workspaces.len(),
                base_file_of(self.workspaces@, path@.key) == base_file_of(self.workspaces@.skip(i as int), path@.key),
            decreases self.workspaces.len() - i,
        {
            proof {
                assert(self.workspaces@.skip(i as int).drop_first() =~= self.workspaces@.skip(i + 1));
            }
            let file = self.workspaces[i].file_id(&path.key);
            if file.is_some() {
                return file;
            }
            i = i + 1;
        }
        None
    }

    pub fn path(&self, file_id: u32) -> (r: Option<FilePath>)
        ensures
            (match r {
                Some(path) => Some(path@),
                None => None,
            }) == (if self.overlay_by_file@.contains_key(file_id) {
                Some(self.overlay_by_file@[file_id]@)
            } else {
                base_path_of(self.workspaces@, file_id)
            }),
    {
        match self.overlay_by_file.get(&file_id) {
            Some(path) => {
                return Some(path.replica());
            },
            None => {},
        }
        let mut i: usize = 0;
        proof {
            assert(self.workspaces@.skip(0) =~= self.workspaces@);
        }
        while i < self.workspaces.len()
            invariant
                i <= self.workspaces.len(),
                base_path_of(self.workspaces@, file_id) == base_path_of(self.workspaces@.skip(i as int), file_id),
                !self.overlay_by_file@.contains_key(file_id),
            decreases self.workspaces.len() - i,
        {
            proof {
                assert(self.workspaces@.skip(i as int).drop_first() =~= self.workspaces@.skip(i + 1));
            }
            match self.workspaces[i].path(file_id) {
                Some(path) => {
                    return Some(path.replica());
                },
                None => {},
            }
            i = i + 1;
        }
        None
    }

    /// Whether a known file exists: an overlay file does, and a file on disk does where some
    /// workspace that has it says so.
    pub fn file_exists(&self, file_id: u32) -> (r: Option<bool>)
        ensures
            r == (if self.overlay_by_file@.contains_key(file_id) || some_holds(self.workspaces@, file_id) {
                Some(true)
            } else if some_has(self.workspaces@, file_id) {
                Some(false)
            } else {
                None
            }),
    {
        if self.overlay_by_file.contains_key(&file_id) {
            return Some(true);
        }
        let mut found = false;
        let mut i: usize = 0;
        while i < self.workspaces.len()
            invariant
                i <= self.workspaces.len(),
                !self.overlay_by_file@.contains_key(file_id),
                found <==> exists|j: int| 0 <= j < i && (#[trigger] self.workspaces@[j])@.contains_file(file_id),
                forall|j: int| 0 <= j < i ==> !(#[trigger] self.workspaces@[j])@.file_exists(file_id),
            decreases self.workspaces.len() - i,
        {
            let workspace = &self.workspaces[i];
            if workspace.contains_file(file_id) {
                found = true;
                proof {
                    assert(self.workspaces@[i as int]@.contains_file(file_id));
                }
                if workspace.file_exists(file_id) {
                    proof {
                        assert(self.workspaces@[i as int]@.file_exists(file_id));
                    }
                    return Some(true);
                }
            }
            i = i + 1;
        }
        if found {
            Some(false)
        } else {
            None
        }
    }
}

/// A file that is put in is found by its path and its number, and exists as told. Other files and
/// paths stay as they are.
pub proof fn law_put_file_is_found(files: FilesView, file: u32, path: PathView, exists: bool, other: u32, key: Seq<char>)
    requires
        other != file,
        key != path.key,
    ensures
        ({
            let r = files.inserted(file, path, exists);
            &&& r.by_path.contains_key(path.key) && r.by_path[path.key] == file
            &&& r.by_id.contains_key(file) && r.by_id[file].path == path && r.by_id[file].exists == exists
            &&& r.by_path.contains_key(key) == files.by_path.contains_key(key) && (files.by_path.contains_key(key) ==> r.by_path[key]
                == files.by_path[key])
            &&& r.by_id.contains_key(other) == files.by_id.contains_key(other) && (files.by_id.contains_key(other) ==> r.by_id[other]
                == files.by_id[other])
            &&& r.file_id(path.key) == Some(file)
            &&& r.path(file) == Some(path)
            &&& r.file_exists(file) == exists
            &&& r.contains_file(file)
        }),
{
}

/// To tell whether a file exists changes that of a known file, and nothing else.
pub proof fn law_known_files_are_marked(files: FilesView, file: u32, exists: bool, other: u32)
    requires
        other != file,
    ensures
        ({
            let r = files.marked(file, exists);
            &&& r.by_path == files.by_path
            &&& r.by_id.dom() == files.by_id.dom()
            &&& files.by_id.contains_key(file) ==> r.by_id[file].exists == exists && r.by_id[file].path == files.by_id[file].path
            &&& files.by_id.contains_key(other) ==> r.by_id[other] == files.by_id[other]
            &&& r.file_exists(file) <==> files.by_id.contains_key(file) && exists
            &&& r.path(file) == files.path(file)
        }),
{
    if files.by_id.contains_key(file) {
        assert(files.marked(file, exists).by_id.dom() =~= files.by_id.dom());
    }
}

/// What the loader listed is known under the numbers given: of two files with one number, or one
/// path, the later counts.
pub proof fn law_last_listed_file_counts(files: Seq<LoadedFile>, numbers: Map<u32, u32>, file: u32, key: Seq<char>)
    ensures
        ({
            let r = numbered(files, numbers);
            &&& r.by_id.contains_key(file) <==> exists|i: int|
                0 <= i < files.len() && numbers.contains_pair((#[trigger] files[i]).file, file)
            &&& forall|i: int|
                0 <= i < files.len() && numbers.contains_pair((#[trigger] files[i]).file, file) && (forall|j: int|
                    i < j < files.len() ==> !numbers.contains_pair((#[trigger] files[j]).file, file)) ==> r.by_id[file].path
                    == files[i].path@ && r.by_id[file].exists == files[i].exists
            &&& r.by_path.contains_key(key) <==> exists|i: int|
                0 <= i < files.len() && numbers.contains_key((#[trigger] files[i]).file) && files[i].path@.key == key
            &&& forall|i: int|
                0 <= i < files.len() && numbers.contains_key((#[trigger] files[i]).file) && files[i].path@.key == key && (forall|j: int|
                    i < j < files.len() && numbers.contains_key((#[trigger] files[j]).file) ==> files[j].path@.key != key)
                    ==> r.by_path[key] == numbers[files[i].file]
        }),
    decreases files.len(),
{
    if files.len() > 0 {
        let front = files.drop_last();
        let n = files.len() - 1;
        law_last_listed_file_counts(front, numbers, file, key);
        let last = files[n];
        assert(last == files.last());
        let before = numbered(front, numbers);
        let r = numbered(files, numbers);
        assert forall|i: int| 0 <= i < n implies front[i] == #[trigger] files[i] by {}
        if before.by_id.contains_key(file) {
            let i = choose|i: int| 0 <= i < front.len() && numbers.contains_pair((#[trigger] front[i]).file, file);
            assert(files[i] == front[i]);
        }
        if before.by_path.contains_key(key) {
            let i = choose|i: int| 0 <= i < front.len() && numbers.contains_key((#[trigger] front[i]).file) && front[i].path@.key == key;
            assert(files[i] == front[i]);
        }
        if r.by_id.contains_key(file) && !before.by_id.contains_key(file) {
            assert(numbers.contains_pair(files[n].file, file));
        }
        if r.by_path.contains_key(key) && !before.by_path.contains_key(key) {
            assert(files[n].path@.key == key);
        }
        assert forall|i: int|
            0 <= i < files.len() && numbers.contains_pair((#[trigger] files[i]).file, file) && (forall|j: int|
                i < j < files.len() ==> !numbers.contains_pair((#[trigger] files[j]).file, file)) implies r.by_id[file].path
            == files[i].path@ && r.by_id[file].exists == files[i].exists by {
            if i < n {
                assert(front[i] == files[i]);
                assert(!numbers.contains_pair(files[n].file, file));
                assert forall|j: int| i < j < front.len() implies !numbers.contains_pair((#[trigger] front[j]).file, file) by {
                    assert(front[j] == files[j]);
                }
            }
        }
        assert forall|i: int|
            0 <= i < files.len() && numbers.contains_key((#[trigger] files[i]).file) && files[i].path@.key == key && (forall|j: int|
                i < j < files.len() && numbers.contains_key((#[trigger] files[j]).file) ==> files[j].path@.key != key) implies r.by_path[key]
            == numbers[files[i].file] by {
            if i < n {
                assert(front[i] == files[i]);
                assert(numbers.contains_key(files[n].file) ==> files[n].path@.key != key);
                assert forall|j: int| i < j < front.len() && numbers.contains_key((#[trigger] front[j]).file) implies front[j].path@.key
                    != key by {
                    assert(front[j] == files[j]);
                }
            }
        }
    }
}

/// A path leads to the file in the session's overlay, and without one to the file in the first
/// workspace that knows the path.
pub proof fn law_first_known_path_leads_to_the_file(m: SharedFileMappings, key: Seq<char>)
    ensures
        m.overlay_by_path@.contains_key(key) ==> m.lookup(key) == Some(m.overlay_by_path@[key]),
        !m.overlay_by_path@.contains_key(key) ==> match m.lookup(key) {
            None => forall|i: int| 0 <= i < m.workspaces@.len() ==> !(#[trigger] m.workspaces@[i])@.by_path.contains_key(key),
            Some(file) => exists|i: int|
                0 <= i < m.workspaces@.len() && (#[trigger] m.workspaces@[i])@.by_path.contains_key(key) && m.workspaces@[i]@.by_path[key]
                    == file && forall|j: int| 0 <= j < i ==> !(#[trigger] m.workspaces@[j])@.by_path.contains_key(key),
        },
{
    lemma_first_path(m.workspaces@, key);
}

proof fn lemma_first_path(ws: Seq<Arc<LoadedWorkspaceFiles>>, key: Seq<char>)
    ensures
        match base_file_of(ws, key) {
            None => forall|i: int| 0 <= i < ws.len() ==> !(#[trigger] ws[i])@.by_path.contains_key(key),
            Some(file) => exists|i: int|
                0 <= i < ws.len() && (#[trigger] ws[i])@.by_path.contains_key(key) && ws[i]@.by_path[key] == file && forall|j: int|
                    0 <= j < i ==> !(#[trigger] ws[j])@.by_path.contains_key(key),
        },
    decreases ws.len(),
{
    if ws.len() > 0 {
        let rest = ws.drop_first();
        lemma_first_path(rest, key);
        assert forall|i: int| 1 <= i < ws.len() implies rest[i - 1] == #[trigger] ws[i] by {}
        if ws[0]@.by_path.contains_key(key) {
            assert(base_file_of(ws, key) == Some(ws[0]@.by_path[key]));
        } else if let Some(file) = base_file_of(ws, key) {
            let i = choose|i: int|
                0 <= i < rest.len() && (#[trigger] rest[i])@.by_path.contains_key(key) && rest[i]@.by_path[key] == file && forall|j: int|
                    0 <= j < i ==> !(#[trigger] rest[j])@.by_path.contains_key(key);
            assert(ws[i + 1] == rest[i]);
            assert forall|j: int| 0 <= j < i + 1 implies !(#[trigger] ws[j])@.by_path.contains_key(key) by {
                if j > 0 {
                    assert(!rest[j - 1]@.by_path.contains_key(key));
                }
            }
        } else {
            assert forall|i: int| 0 <= i < ws.len() implies !(#[trigger] ws[i])@.by_path.contains_key(key) by {
                if i > 0 {
                    assert(!rest[i - 1]@.by_path.contains_key(key));
                }
            }
        }
    }
}

/// A file on disk has the path that it has in the first workspace that knows the file.
pub proof fn law_first_workspace_tells_the_path(ws: Seq<Arc<LoadedWorkspaceFiles>>, file: u32)
    ensures
        match base_path_of(ws, file) {
            None => forall|i: int| 0 <= i < ws.len() ==> !(#[trigger] ws[i])@.by_id.contains_key(file),
            Some(path) => exists|i: int|
                0 <= i < ws.len() && (#[trigger] ws[i])@.by_id.contains_key(file) && ws[i]@.by_id[file].path == path && forall|j: int|
                    0 <= j < i ==> !(#[trigger] ws[j])@.by_id.contains_key(file),
        },
    decreases ws.len(),
{
    if ws.len() > 0 {
        let rest = ws.drop_first();
        law_first_workspace_tells_the_path(rest, file);
        assert forall|i: int| 1 <= i < ws.len() implies rest[i - 1] == #[trigger] ws[i] by {}
        if ws[0]@.by_id.contains_key(file) {
            assert(base_path_of(ws, file) == Some(ws[0]@.by_id[file].path));
        } else if let Some(path) = base_path_of(ws, file) {
            let i = choose|i: int|
                0 <= i < rest.len() && (#[trigger] rest[i])@.by_id.contains_key(file) && rest[i]@.by_id[file].path == path && forall|j: int|
                    0 <= j < i ==> !(#[trigger] rest[j])@.by_id.contains_key(file);
            assert(ws[i + 1] == rest[i]);
            assert forall|j: int| 0 <= j < i + 1 implies !(#[trigger] ws[j])@.by_id.contains_key(file) by {
                if j > 0 {
                    assert(!rest[j - 1]@.by_id.contains_key(file));
                }
            }
        } else {
            assert forall|i: int| 0 <= i < ws.len() implies !(#[trigger] ws[i])@.by_id.contains_key(file) by {
                if i > 0 {
                    assert(!rest[i - 1]@.by_id.contains_key(file));
                }
            }
        }
    }
}

/// A workspace tells the line endings of a file if the file exists there and the endings are known;
/// the first that does counts.
pub proof fn law_first_workspace_tells_the_endings(ws: Seq<(Arc<LoadedWorkspaceFiles>, Arc<OrderedMap<u32, LineEndings>>)>, file: u32)
    ensures
        match base_endings(ws, file) {
            None => forall|i: int|
                0 <= i < ws.len() ==> !((#[trigger] ws[i]).0@.by_id.contains_key(file) && ws[i].0@.by_id[file].exists
                    && ws[i].1@.contains_key(file)),
            Some(endings) => exists|i: int|
                0 <= i < ws.len() && (#[trigger] ws[i]).0@.by_id.contains_key(file) && ws[i].0@.by_id[file].exists
                    && ws[i].1@.contains_key(file) && ws[i].1@[file] == endings && forall|j: int|
                    0 <= j < i ==> !((#[trigger] ws[j]).0@.by_id.contains_key(file) && ws[j].0@.by_id[file].exists
                        && ws[j].1@.contains_key(file)),
        },
    decreases ws.len(),
{
    if ws.len() > 0 {
        let rest = ws.drop_first();
        law_first_workspace_tells_the_endings(rest, file);
        assert forall|i: int| 1 <= i < ws.len() implies rest[i - 1] == #[trigger] ws[i] by {}
        if ws[0].0@.by_id.contains_key(file) && ws[0].0@.by_id[file].exists && ws[0].1@.contains_key(file) {
            assert(base_endings(ws, file) == Some(ws[0].1@[file]));
        } else if let Some(endings) = base_endings(ws, file) {
            let i = choose|i: int|
                0 <= i < rest.len() && (#[trigger] rest[i]).0@.by_id.contains_key(file) && rest[i].0@.by_id[file].exists
                    && rest[i].1@.contains_key(file) && rest[i].1@[file] == endings && forall|j: int|
                    0 <= j < i ==> !((#[trigger] rest[j]).0@.by_id.contains_key(file) && rest[j].0@.by_id[file].exists
                        && rest[j].1@.contains_key(file));
            assert(ws[i + 1] == rest[i]);
            assert forall|j: int| 0 <= j < i + 1 implies !((#[trigger] ws[j]).0@.by_id.contains_key(file) && ws[j].0@.by_id[file].exists
                && ws[j].1@.contains_key(file)) by {
                if j > 0 {
                    assert(rest[j - 1] == ws[j]);
                }
            }
        } else {
            assert forall|i: int| 0 <= i < ws.len() implies !((#[trigger] ws[i]).0@.by_id.contains_key(file) && ws[i].0@.by_id[file].exists
                && ws[i].1@.contains_key(file)) by {
                if i > 0 {
                    assert(rest[i - 1] == ws[i]);
                }
            }
        }
    }
}

} // verus!
