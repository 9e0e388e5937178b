//! The part of a world that a session would need for itself to change a file.
use crate::base::{LoadedView, WorkspaceSummary};
use crate::file_ids::SharedFileIds;
use crate::files::{FilesView, LoadedWorkspaceFiles};
use crate::inputs::CrateView;
use crate::open_files::summaries_to;
use crate::ordered::{law_numbers_ascend, lemma_sorted_keys, listed, sorted_keys};
use crate::packages::{
    interned, law_first_unshared_crate_is_told, refused, NotInterned, PackageInstances, PackagesView,
};
use crate::paths::{FilePath, PathView};
use crate::recone::OutOfFileNumbers;
use crate::shared::Replica;
use crate::snapshots::summary_views;
use crate::view::WorkspaceView;
use crate::world::{SharedWorld, WorldView};
use vstd::prelude::*;

verus! {

/// A file on disk that the session has for itself, once it has a number there.
#[derive(Debug)]
pub struct SessionOverlayFile {
    base_file: u32,
    session_file: Option<u32>,
    path: FilePath,
}

#[verifier::ext_equal]
pub struct SessionFileView {
    pub base_file: u32,
    pub session_file: Option<u32>,
    pub path: PathView,
}

impl View for SessionOverlayFile {
    type V = SessionFileView;

    closed spec fn view(&self) -> SessionFileView {
        SessionFileView { base_file: self.base_file, session_file: self.session_file, path: self.path@ }
    }
}

impl SessionOverlayFile {
    pub fn new(base_file: u32, session_file: u32, path: FilePath) -> (r: Self)
        ensures
            r@ == (SessionFileView { base_file, session_file: Some(session_file), path: path@ }),
    {
        SessionOverlayFile { base_file, session_file: Some(session_file), path }
    }

    /// A file that has no number of the session's own yet.
    pub fn pending(base_file: u32, path: FilePath) -> (r: Self)
        ensures
            r@ == (SessionFileView { base_file, session_file: None, path: path@ }),
    {
        SessionOverlayFile { base_file, session_file: None, path }
    }

    pub fn base_file(&self) -> (r: u32)
        ensures
            r == self@.base_file,
    {
        self.base_file
    }

    pub fn session_file(&self) -> (r: Option<u32>)
        ensures
            r == self@.session_file,
    {
        self.session_file
    }

    pub fn path(&self) -> (r: &FilePath)
        ensures
            r@ == self@.path,
    {
        &self.path
    }
}

/// A crate that the session has for itself, or shares.
#[derive(Clone, Copy, Debug, PartialEq, Eq, Structural)]
pub struct SessionOverlayCrate {
    pub base: u32,
    pub session: Option<u32>,
}

impl SessionOverlayCrate {
    pub fn new(base_crate: u32, session_crate: u32) -> (r: Self)
        ensures
            r == (SessionOverlayCrate { base: base_crate, session: Some(session_crate) }),
    {
        SessionOverlayCrate { base: base_crate, session: Some(session_crate) }
    }

    pub fn pending(base_crate: u32) -> (r: Self)
        ensures
            r == (SessionOverlayCrate { base: base_crate, session: None }),
    {
        SessionOverlayCrate { base: base_crate, session: None }
    }

    pub fn shared(krate: u32) -> (r: Self)
        ensures
            r == (SessionOverlayCrate { base: krate, session: Some(krate) }),
    {
        SessionOverlayCrate::new(krate, krate)
    }

    pub fn base_crate(&self) -> (r: u32)
        ensures
            r == self.base,
    {
        self.base
    }

    pub fn session_crate(&self) -> (r: Option<u32>)
        ensures
            r == self.session,
    {
        self.session
    }

    pub fn is_shared(&self) -> (r: bool)
        ensures
            r == (self.session == Some(self.base)),
    {
        match self.session {
            Some(session) => session == self.base,
            None => false,
        }
    }
}

/// The files and crates that a session has for itself, no file and no crate twice.
#[derive(Debug)]
pub struct SessionOverlay {
    files: Vec<SessionOverlayFile>,
    crates: Vec<SessionOverlayCrate>,
}

#[verifier::ext_equal]
pub struct SessionOverlayView {
    pub files: Seq<SessionFileView>,
    pub crates: Seq<SessionOverlayCrate>,
}

pub open spec fn session_file_views(files: Seq<SessionOverlayFile>) -> Seq<SessionFileView> {
    files.map_values(|f: SessionOverlayFile| f@)
}

impl View for SessionOverlay {
    type V = SessionOverlayView;

    closed spec fn view(&self) -> SessionOverlayView {
        SessionOverlayView { files: session_file_views(self.files@), crates: self.crates@ }
    }
}

impl SessionOverlayView {
    pub open spec fn has_file(self, base_file: u32) -> bool {
        exists|i: int| 0 <= i < self.files.len() && (#[trigger] self.files[i]).base_file == base_file
    }

    pub open spec fn has_crate(self, base_crate: u32) -> bool {
        exists|i: int| 0 <= i < self.crates.len() && (#[trigger] self.crates[i]).base == base_crate
    }

    /// A file that is there stays.
    pub open spec fn with_file(self, file: SessionFileView) -> SessionOverlayView {
        if self.has_file(file.base_file) {
            self
        } else {
            SessionOverlayView { files: self.files.push(file), ..self }
        }
    }

    pub open spec fn with_crate(self, krate: SessionOverlayCrate) -> SessionOverlayView {
        if self.has_crate(krate.base) {
            self
        } else {
            SessionOverlayView { crates: self.crates.push(krate), ..self }
        }
    }
}

/// How many of the first `n` files have no number of the session's own.
pub open spec fn pending_files(files: Seq<SessionFileView>, n: int) -> nat
    decreases n,
{
    if n <= 0 {
        0
    } else {
        pending_files(files, n - 1) + (if files[n - 1].session_file is None {
            1nat
        } else {
            0nat
        })
    }
}

/// The file with the number that it gets, where the numbers start at `next`.
pub open spec fn numbered(files: Seq<SessionFileView>, i: int, next: u32) -> SessionFileView {
    if files[i].session_file is None {
        SessionFileView { session_file: Some((next + pending_files(files, i)) as u32), ..files[i] }
    } else {
        files[i]
    }
}

pub open spec fn materialized(o: SessionOverlayView, next: u32) -> SessionOverlayView {
    SessionOverlayView { files: Seq::new(o.files.len(), |i: int| numbered(o.files, i, next)), ..o }
}

impl SessionOverlay {
    pub fn new() -> (r: Self)
        ensures
            r@ == (SessionOverlayView { files: Seq::empty(), crates: Seq::empty() }),
    {
        let r = SessionOverlay { files: Vec::new(), crates: Vec::new() };
        proof {
            assert(r@.files =~= Seq::empty());
        }
        r
    }

    pub fn files(&self) -> (r: &Vec<SessionOverlayFile>)
        ensures
            session_file_views(r@) == self@.files,
    {
        &self.files
    }

    pub fn crates(&self) -> (r: &Vec<SessionOverlayCrate>)
        ensures
            r@ == self@.crates,
    {
        &self.crates
    }

    pub fn push_file(&mut self, file: SessionOverlayFile)
        ensures
            final(self)@ == old(self)@.with_file(file@),
    {
        let ghost o = self@;
        let mut i: usize = 0;
        while i < self.files.len()
            invariant
                i <= self.files.len(),
                o == self@,
                *self == *old(self),
                forall|j: int| 0 <= j < i ==> (#[trigger] o.files[j]).base_file != file@.base_file,
            decreases self.files.len() - i,
        {
            proof {
                assert(o.files[i as int] == self.files@[i as int]@);
            }
            if self.files[i].base_file == file.base_file {
                proof {
                    assert(o.has_file(file@.base_file));
                }
                return;
            }
            i = i + 1;
        }
        let ghost one = file@;
        self.files.push(file);
        proof {
            assert(!o.has_file(one.base_file));
            assert(self@.files =~= o.files.push(one));
        }
    }

    pub fn push_crate(&mut self, krate: SessionOverlayCrate)
        ensures
            final(self)@ == old(self)@.with_crate(krate),
    {
        let ghost o = self@;
        let mut i: usize = 0;
        while i < self.crates.len()
            invariant
                i <= self.crates.len(),
                o == self@,
                *self == *old(self),
                forall|j: int| 0 <= j < i ==> (#[trigger] o.crates[j]).base != krate.base,
            decreases self.crates.len() - i,
        {
            if self.crates[i].base == krate.base {
                proof {
                    assert(o.crates[i as int].base == krate.base);
                }
                return;
            }
            i = i + 1;
        }
        self.crates.push(krate);
        proof {
            assert(!o.has_crate(krate.base));
            assert(self@.files =~= o.files);
        }
    }

    fn pending_count(&self) -> (r: usize)
        ensures
            r == pending_files(self@.files, self@.files.len() as int),
            r <= self@.files.len(),
    {
        let ghost o = self@;
        let mut r: usize = 0;
        let mut i: usize = 0;
        while i < self.files.len()
            invariant
                i <= self.files.len(),
                o == self@,
                o.files.len() == self.files@.len(),
                r == pending_files(o.files, i as int),
                r <= i,
            decreases self.files.len() - i,
        {
            proof {
                assert(o.files[i as int] == self.files@[i as int]@);
            }
            if self.files[i].session_file.is_none() {
                r = r + 1;
            }
            i = i + 1;
        }
        r
    }

    /// Gives every file that has none a number of the session's own, in their order.
    pub fn materialize_files(&mut self, ids: &mut SharedFileIds) -> (r: Result<(), OutOfFileNumbers>)
        ensures
            r is Ok <==> pending_files(old(self)@.files, old(self)@.files.len() as int) <= old(ids).left(),
            r is Ok ==> final(self)@ == materialized(old(self)@, old(ids).next) && final(ids).next == old(ids).next
                + pending_files(old(self)@.files, old(self)@.files.len() as int),
            r is Err ==> final(self)@ == old(self)@ && *final(ids) == *old(ids),
    {
        let ghost o = self@;
        let ghost start = ids.next;
        let needed = self.pending_count();
        if needed as u128 + ids.next as u128 > crate::file_ids::MAX_ANALYZED_FILE_ID as u128 + 1 {
            return Err(OutOfFileNumbers);
        }
        let ghost m = materialized(o, start);
        let mut i: usize = 0;
        while i < self.files.len()
            invariant
                i <= self.files.len(),
                self.files@.len() == o.files.len(),
                m == materialized(o, start),
                start == old(ids).next,
                o == old(self)@,
                start + pending_files(o.files, o.files.len() as int) <= crate::file_ids::MAX_ANALYZED_FILE_ID + 1,
                ids.next == start + pending_files(o.files, i as int),
                self.crates@ == o.crates,
                forall|j: int| 0 <= j < i ==> (#[trigger] self.files@[j])@ == m.files[j],
                forall|j: int| i <= j < o.files.len() ==> (#[trigger] self.files@[j])@ == o.files[j],
            decreases self.files.len() - i,
        {
            proof {
                assert(self.files@[i as int]@ == o.files[i as int]);
                lemma_pending_grows(o.files, i + 1, o.files.len() as int);
                assert(m.files[i as int] == numbered(o.files, i as int, start));
            }
            if self.files[i].session_file.is_none() {
                let number = ids.allocate();
                self.files[i].session_file = Some(number);
            }
            i = i + 1;
        }
        proof {
            assert(self@.files =~= m.files);
        }
        Ok(())
    }
}

proof fn lemma_pending_grows(files: Seq<SessionFileView>, a: int, b: int)
    requires
        a <= b,
    ensures
        pending_files(files, a) <= pending_files(files, b),
    decreases b - a,
{
    if a < b {
        lemma_pending_grows(files, a, b - 1);
    }
}

/// The first of the first `n` files of a workspace, by ascending number, that has a path.
pub open spec fn file_named(files: FilesView, text: Seq<char>, n: int) -> Option<(u32, PathView)>
    decreases n,
{
    if n <= 0 {
        None
    } else {
        let before = file_named(files, text, n - 1);
        let f = sorted_keys::<u32>(files.by_id.dom())[n - 1];
        if before is Some {
            before
        } else if files.by_id[f].path.text == text {
            Some((f, files.by_id[f].path))
        } else {
            None
        }
    }
}

pub open spec fn workspace_file_named(files: FilesView, text: Seq<char>) -> Option<(u32, PathView)> {
    file_named(files, text, sorted_keys::<u32>(files.by_id.dom()).len() as int)
}

/// The file of a path in the first of the workspaces that has it.
pub open spec fn found_file(ws: Seq<LoadedView>, indexes: Seq<usize>, text: Seq<char>, n: int) -> Option<(u32, PathView)>
    decreases n,
{
    if n <= 0 {
        None
    } else {
        let before = found_file(ws, indexes, text, n - 1);
        if before is Some || indexes[n - 1] >= ws.len() {
            before
        } else {
            workspace_file_named(ws[indexes[n - 1] as int].files, text)
        }
    }
}

pub open spec fn file_view(r: Option<(u32, FilePath)>) -> Option<(u32, PathView)> {
    match r {
        Some(found) => Some((found.0, found.1@)),
        None => None,
    }
}

fn find_named(files: &LoadedWorkspaceFiles, text: &String) -> (r: Option<(u32, FilePath)>)
    ensures
        file_view(r) == workspace_file_named(files@, text@),
{
    let ghost v = files@;
    let n = files.files_by_id.len();
    let mut found: Option<(u32, FilePath)> = None;
    let mut i: usize = 0;
    proof {
        lemma_sorted_keys(files.files_by_id);
        assert(v.by_id.dom() =~= files.files_by_id@.dom());
    }
    while i < n
        invariant
            i <= n,
            n == files.files_by_id.keys().len(),
            listed(files.files_by_id),
            v == files@,
            files.files_by_id.keys() == sorted_keys::<u32>(v.by_id.dom()),
            file_view(found) == file_named(v, text@, i as int),
        decreases n - i,
    {
        let file: u32 = *files.files_by_id.key_at(i);
        let entry = files.files_by_id.value_at(i);
        proof {
            assert(files.files_by_id@.contains_key(files.files_by_id.keys()[i as int]));
            assert(v.by_id[file].path == entry.path@);
        }
        if found.is_none() && entry.path.text == *text {
            found = Some((file, entry.path.replica()));
        }
        i = i + 1;
    }
    found
}

impl SharedWorld {
    /// The file of a path in the first of some workspaces that has it.
    pub fn workspace_file_in(&self, workspaces: &Vec<usize>, path: &String) -> (r: Option<(u32, FilePath)>)
        ensures
            file_view(r) == found_file(self@.base.workspaces, workspaces@, path@, workspaces@.len() as int),
    {
        let ghost ws = self@.base.workspaces;
        let mut found: Option<(u32, FilePath)> = None;
        let mut i: usize = 0;
        while i < workspaces.len()
            invariant
                i <= workspaces.len(),
                ws == self@.base.workspaces,
                file_view(found) == found_file(ws, workspaces@, path@, i as int),
            decreases workspaces.len() - i,
        {
            let index: usize = workspaces[i];
            if found.is_none() && index < self.base.workspaces.len() {
                proof {
                    assert(ws[index as int] == self.base.workspaces@[index as int]@);
                }
                let files: &LoadedWorkspaceFiles = &self.base.workspaces[index].files;
                found = find_named(files, path);
            }
            i = i + 1;
        }
        found
    }

    /// The file of a path in the first workspace that has it.
    pub fn workspace_file(&self, path: &String) -> (r: Option<(u32, FilePath)>)
        ensures
            file_view(r) == found_file(
                self@.base.workspaces,
                Seq::new(self@.base.workspaces.len(), |i: int| i as usize),
                path@,
                self@.base.workspaces.len() as int,
            ),
    {
        let mut all: Vec<usize> = Vec::new();
        let n = self.base.workspaces.len();
        let mut i: usize = 0;
        while i < n
            invariant
                i <= n,
                n == self@.base.workspaces.len(),
                all@ == Seq::new(i as nat, |j: int| j as usize),
            decreases n - i,
        {
            all.push(i);
            i = i + 1;
            proof {
                assert(all@ =~= Seq::new(i as nat, |j: int| j as usize));
            }
        }
        self.workspace_file_in(&all, path)
    }
}

/// The last crate with a number, among the first `n`.
pub open spec fn crate_numbered(crates: Seq<CrateView>, krate: u32, n: int) -> Option<CrateView>
    decreases n,
{
    if n <= 0 {
        None
    } else if crates[n - 1].id == krate {
        Some(crates[n - 1])
    } else {
        crate_numbered(crates, krate, n - 1)
    }
}

pub open spec fn base_crate(w: WorldView, krate: u32) -> Option<CrateView> {
    crate_numbered(w.base.crates, krate, w.base.crates.len() as int)
}

/// The path of a file in the source root that it is in.
pub open spec fn path_in_root(w: WorldView, file: u32) -> Option<PathView> {
    let inputs = w.base.inputs;
    if !inputs.file_roots.contains_key(file) || inputs.file_roots[file] >= inputs.roots.len() {
        None
    } else {
        let root = inputs.roots[inputs.file_roots[file] as int];
        if root.files.contains_key(file) {
            Some(root.files[file])
        } else {
            None
        }
    }
}

/// The root file of a crate, where it has a path.
pub open spec fn crate_root(w: WorldView, krate: u32) -> Option<(u32, PathView)> {
    match base_crate(w, krate) {
        None => None,
        Some(data) => match path_in_root(w, data.root_file) {
            None => None,
            Some(path) => Some((data.root_file, path)),
        },
    }
}

/// The crates that a crate depends on, in their order.
pub open spec fn crate_dependencies(w: WorldView, krate: u32) -> Seq<u32> {
    match base_crate(w, krate) {
        None => Seq::empty(),
        Some(data) => data.dependencies,
    }
}

impl SharedWorld {
    fn find_base_crate(&self, krate: u32) -> (r: Option<usize>)
        ensures
            match r {
                Some(at) => at < self.base.base_crates@.len() && base_crate(self@, krate) == Some(self.base.base_crates@[at as int]@),
                None => base_crate(self@, krate) is None,
            },
    {
        let ghost crates = self@.base.crates;
        let mut i: usize = self.base.base_crates.len();
        while i > 0
            invariant
                i <= self.base.base_crates@.len(),
                crates == self@.base.crates,
                crates.len() == self.base.base_crates@.len(),
                base_crate(self@, krate) == crate_numbered(crates, krate, i as int),
            decreases i,
        {
            proof {
                assert(crates[i - 1] == self.base.base_crates@[i - 1]@);
            }
            if self.base.base_crates[i - 1].id == krate {
                return Some(i - 1);
            }
            i = i - 1;
        }
        None
    }

    fn path_for_file(&self, file: u32) -> (r: Option<FilePath>)
        ensures
            path_in_root(self@, file) == (match r {
                Some(path) => Some(path@),
                None => None::<PathView>,
            }),
    {
        let ghost roots = self@.base.inputs.roots;
        let root: u32 = match self.base.inputs.file_roots.get(&file) {
            Some(root) => *root,
            None => {
                return None;
            },
        };
        if root as u64 >= self.base.inputs.roots.len() as u64 {
            return None;
        }
        proof {
            assert(roots[root as int] == self.base.inputs.roots@[root as int]@);
        }
        match self.base.inputs.roots[root as usize].files.get(&file) {
            Some(path) => Some(path.replica()),
            None => None,
        }
    }

    /// The root file of a crate, and its path. There is none where the crate or its path is not
    /// known.
    pub fn crate_root_file(&self, krate: u32) -> (r: Option<(u32, FilePath)>)
        ensures
            file_view(r) == crate_root(self@, krate),
    {
        let at = match self.find_base_crate(krate) {
            Some(at) => at,
            None => {
                return None;
            },
        };
        let file: u32 = self.base.base_crates[at].root_file;
        match self.path_for_file(file) {
            Some(path) => Some((file, path)),
            None => None,
        }
    }

    /// The crates that a crate depends on, each as an instance of its package.
    pub fn shared_dependencies(&self, packages: &PackageInstances, krate: u32) -> (r: Result<Vec<u32>, NotInterned>)
        ensures
            ({
                let dependencies = crate_dependencies(self@, krate);
                match refused(packages@, dependencies, dependencies.len() as int) {
                    None => r is Ok && r->Ok_0@ == dependencies,
                    Some(error) => r == Err::<Vec<u32>, NotInterned>(error),
                }
            }),
    {
        match self.find_base_crate(krate) {
            Some(at) => packages.interned_crates(&self.base.base_crates[at].dependencies),
            None => Ok(Vec::new()),
        }
    }
}

#[derive(Clone, Copy, Debug, PartialEq, Eq, Structural)]
pub enum ConeError {
    /// None of the workspaces has the file.
    NotLoaded,
    /// The root file of one of its crates has no path.
    PathUnavailable,
    /// A crate that one of its crates depends on cannot be shared.
    NotInterned(NotInterned),
    OutOfFileNumbers,
}

/// The overlay with the first `n` dependencies, which are shared.
pub open spec fn with_dependencies(o: SessionOverlayView, dependencies: Seq<u32>, n: int) -> SessionOverlayView
    decreases n,
{
    if n <= 0 {
        o
    } else {
        with_dependencies(o, dependencies, n - 1).with_crate(
            SessionOverlayCrate { base: dependencies[n - 1], session: Some(dependencies[n - 1]) },
        )
    }
}

/// Why a crate cannot be part of an overlay.
pub open spec fn cone_refused(w: WorldView, p: PackagesView, krate: u32) -> Option<ConeError> {
    let dependencies = crate_dependencies(w, krate);
    if crate_root(w, krate) is None {
        Some(ConeError::PathUnavailable)
    } else {
        match refused(p, dependencies, dependencies.len() as int) {
            None => None,
            Some(error) => Some(ConeError::NotInterned(error)),
        }
    }
}

/// The overlay with a crate, its root file and its dependencies.
pub open spec fn with_cone(o: SessionOverlayView, w: WorldView, krate: u32) -> SessionOverlayView {
    let (root_file, root_path) = crate_root(w, krate)->0;
    let dependencies = crate_dependencies(w, krate);
    with_dependencies(
        o.with_crate(SessionOverlayCrate { base: krate, session: None }).with_file(
            SessionFileView { base_file: root_file, session_file: None, path: root_path },
        ),
        dependencies,
        dependencies.len() as int,
    )
}

/// The overlay with the first `n` crates, or why the first of them that cannot be part of it
/// cannot.
pub open spec fn with_cones(o: SessionOverlayView, w: WorldView, p: PackagesView, crates: Seq<u32>, n: int) -> Result<
    SessionOverlayView,
    ConeError,
>
    decreases n,
{
    if n <= 0 {
        Ok(o)
    } else {
        match with_cones(o, w, p, crates, n - 1) {
            Err(error) => Err(error),
            Ok(before) => match cone_refused(w, p, crates[n - 1]) {
                Some(error) => Err(error),
                None => Ok(with_cone(before, w, crates[n - 1])),
            },
        }
    }
}

/// The overlay for a file before its files have numbers.
pub open spec fn pending_cone(w: WorldView, p: PackagesView, file: u32, path: PathView, crates: Seq<u32>) -> Result<
    SessionOverlayView,
    ConeError,
> {
    with_cones(
        SessionOverlayView { files: Seq::empty(), crates: Seq::empty() }.with_file(
            SessionFileView { base_file: file, session_file: None, path },
        ),
        w,
        p,
        crates,
        crates.len() as int,
    )
}

fn push_cone(overlay: &mut SessionOverlay, world: &SharedWorld, packages: &PackageInstances, krate: u32) -> (r: Option<ConeError>)
    ensures
        r == cone_refused(world@, packages@, krate),
        r is None ==> final(overlay)@ == with_cone(old(overlay)@, world@, krate),
{
    overlay.push_crate(SessionOverlayCrate::pending(krate));
    let (root_file, root_path) = match world.crate_root_file(krate) {
        Some(root) => root,
        None => {
            return Some(ConeError::PathUnavailable);
        },
    };
    overlay.push_file(SessionOverlayFile::pending(root_file, root_path));
    let dependencies = match world.shared_dependencies(packages, krate) {
        Ok(dependencies) => dependencies,
        Err(error) => {
            return Some(ConeError::NotInterned(error));
        },
    };
    let ghost start = overlay@;
    let mut i: usize = 0;
    while i < dependencies.len()
        invariant
            i <= dependencies.len(),
            overlay@ == with_dependencies(start, dependencies@, i as int),
        decreases dependencies.len() - i,
    {
        overlay.push_crate(SessionOverlayCrate::shared(dependencies[i]));
        i = i + 1;
    }
    None
}

proof fn lemma_cones_stop(o: SessionOverlayView, w: WorldView, p: PackagesView, crates: Seq<u32>, m: int, n: int)
    requires
        m <= n,
        with_cones(o, w, p, crates, m) is Err,
    ensures
        with_cones(o, w, p, crates, n) == with_cones(o, w, p, crates, m),
    decreases n - m,
{
    if m < n {
        lemma_cones_stop(o, w, p, crates, m, n - 1);
    }
}

impl WorkspaceView {
    /// The file of a path in the first of the view's workspaces that has it.
    pub fn workspace_file(&self, world: &SharedWorld, path: &String) -> (r: Option<(u32, FilePath)>)
        ensures
            file_view(r) == found_file(world@.base.workspaces, self@.workspaces, path@, self@.workspaces.len() as int),
    {
        let indexes = self.workspace_indexes();
        world.workspace_file_in(&indexes, path)
    }

    /// The summaries of the view's workspaces.
    pub fn workspace_summaries(&self, world: &SharedWorld) -> (r: Vec<WorkspaceSummary>)
        ensures
            summary_views(r@) == summaries_to(world@.base.workspaces, self@.workspaces, self@.workspaces.len() as int),
    {
        world.workspace_summaries(self)
    }

    /// What a session needs for itself to change a file: the file, the crates it belongs to with
    /// their root files, and what these depend on, which is shared.
    pub fn overlay_cone(
        &self,
        world: &SharedWorld,
        packages: &PackageInstances,
        path: &String,
        crates: &Vec<u32>,
        ids: &mut SharedFileIds,
    ) -> (r: Result<SessionOverlay, ConeError>)
        ensures
            r is Err ==> *final(ids) == *old(ids),
            match found_file(world@.base.workspaces, self@.workspaces, path@, self@.workspaces.len() as int) {
                None => r == Err::<SessionOverlay, ConeError>(ConeError::NotLoaded),
                Some((file, path)) => match pending_cone(world@, packages@, file, path, crates@) {
                    Err(error) => r == Err::<SessionOverlay, ConeError>(error),
                    Ok(o) => {
                        let needed = pending_files(o.files, o.files.len() as int);
                        if needed <= old(ids).left() {
                            r is Ok && r->Ok_0@ == materialized(o, old(ids).next) && final(ids).next == old(ids).next + needed
                        } else {
                            r == Err::<SessionOverlay, ConeError>(ConeError::OutOfFileNumbers)
                        }
                    },
                },
            },
    {
        let (file, vfs_path) = match self.workspace_file(world, path) {
            Some(found) => found,
            None => {
                return Err(ConeError::NotLoaded);
            },
        };
        let ghost seen = vfs_path@;
        let mut overlay = SessionOverlay::new();
        overlay.push_file(SessionOverlayFile::pending(file, vfs_path));
        let ghost start = overlay@;
        let mut i: usize = 0;
        while i < crates.len()
            invariant
                i <= crates.len(),
                *ids == *old(ids),
                with_cones(start, world@, packages@, crates@, i as int) == Ok::<SessionOverlayView, ConeError>(overlay@),
                found_file(world@.base.workspaces, self@.workspaces, path@, self@.workspaces.len() as int) == Some((file, seen)),
                start == (SessionOverlayView { files: Seq::empty(), crates: Seq::empty() }).with_file(
                    SessionFileView { base_file: file, session_file: None, path: seen },
                ),
            decreases crates.len() - i,
        {
            match push_cone(&mut overlay, world, packages, crates[i]) {
                Some(error) => {
                    proof {
                        lemma_cones_stop(start, world@, packages@, crates@, i + 1, crates@.len() as int);
                    }
                    return Err(error);
                },
                None => {},
            }
            i = i + 1;
        }
        match overlay.materialize_files(ids) {
            Ok(_) => Ok(overlay),
            Err(_) => Err(ConeError::OutOfFileNumbers),
        }
    }
}

pub open spec fn without_repeats(o: SessionOverlayView) -> bool {
    &&& forall|i: int, j: int| 0 <= i < j < o.files.len() ==> (#[trigger] o.files[i]).base_file != (#[trigger] o.files[j]).base_file
    &&& forall|i: int, j: int| 0 <= i < j < o.crates.len() ==> (#[trigger] o.crates[i]).base != (#[trigger] o.crates[j]).base
}

/// An overlay has no file and no crate twice, whatever is put into it.
pub proof fn law_overlay_holds_nothing_twice(o: SessionOverlayView, file: SessionFileView, krate: SessionOverlayCrate, next: u32)
    requires
        without_repeats(o),
    ensures
        without_repeats(SessionOverlayView { files: Seq::empty(), crates: Seq::empty() }),
        without_repeats(o.with_file(file)),
        without_repeats(o.with_crate(krate)),
        without_repeats(materialized(o, next)),
{
}

proof fn lemma_none_pending(files: Seq<SessionFileView>, n: int)
    requires
        0 <= n <= files.len(),
        forall|i: int| 0 <= i < files.len() ==> (#[trigger] files[i]).session_file is Some,
    ensures
        pending_files(files, n) == 0,
    decreases n,
{
    if n > 0 {
        lemma_none_pending(files, n - 1);
        assert(files[n - 1].session_file is Some);
    }
}

/// Files get their numbers once: every file has one, those that had one keep it, new ones are free,
/// each is given to one file, nothing else changes, and a second time nothing changes at all.
pub proof fn law_files_are_numbered_once(o: SessionOverlayView, next: u32, later: u32)
    requires
        next + pending_files(o.files, o.files.len() as int) <= u32::MAX,
    ensures
        ({
            let r = materialized(o, next);
            &&& r.crates == o.crates
            &&& r.files.len() == o.files.len()
            &&& forall|i: int|
                0 <= i < o.files.len() ==> {
                    &&& (#[trigger] r.files[i]).session_file is Some
                    &&& r.files[i] == (SessionFileView { session_file: r.files[i].session_file, ..o.files[i] })
                    &&& o.files[i].session_file is Some ==> r.files[i] == o.files[i]
                    &&& o.files[i].session_file is None ==> next <= r.files[i].session_file->0 < next + pending_files(
                        o.files,
                        o.files.len() as int,
                    )
                }
            &&& forall|i: int, j: int|
                0 <= i < j < o.files.len() && o.files[i].session_file is None && o.files[j].session_file is None
                    ==> (#[trigger] r.files[i]).session_file != (#[trigger] r.files[j]).session_file
            &&& materialized(r, later) == r
            &&& pending_files(r.files, r.files.len() as int) == 0
        }),
{
    let r = materialized(o, next);
    assert forall|i: int| 0 <= i < o.files.len() implies {
        &&& (#[trigger] r.files[i]).session_file is Some
        &&& r.files[i] == (SessionFileView { session_file: r.files[i].session_file, ..o.files[i] })
        &&& o.files[i].session_file is Some ==> r.files[i] == o.files[i]
        &&& o.files[i].session_file is None ==> next <= r.files[i].session_file->0 < next + pending_files(
            o.files,
            o.files.len() as int,
        )
    } by {
        lemma_pending_grows(o.files, i + 1, o.files.len() as int);
        assert(r.files[i] == numbered(o.files, i, next));
    }
    assert forall|i: int, j: int|
        0 <= i < j < o.files.len() && o.files[i].session_file is None && o.files[j].session_file is None implies (#[trigger] r.files[i]).session_file
        != (#[trigger] r.files[j]).session_file by {
        lemma_pending_grows(o.files, i + 1, j);
        lemma_pending_grows(o.files, j + 1, o.files.len() as int);
        assert(r.files[i] == numbered(o.files, i, next));
        assert(r.files[j] == numbered(o.files, j, next));
    }
    lemma_none_pending(r.files, r.files.len() as int);
    assert(materialized(r, later).files =~= r.files);
}

/// Files that have no number of the session's own get the next ones, in the order in which they
/// stand, without a gap.
pub proof fn law_numbers_follow_the_files(o: SessionOverlayView, i: int, j: int, next: u32)
    requires
        0 <= i < j < o.files.len(),
        next + pending_files(o.files, o.files.len() as int) <= u32::MAX,
        o.files[j].session_file is None,
        forall|k: int| i < k < j ==> (#[trigger] o.files[k]).session_file is Some,
    ensures
        o.files[i].session_file is None ==> materialized(o, next).files[j].session_file->0 == materialized(
            o,
            next,
        ).files[i].session_file->0 + 1,
        i == 0 && o.files[i].session_file is Some ==> materialized(o, next).files[j].session_file == Some(next),
        o.files[0].session_file is None ==> materialized(o, next).files[0].session_file == Some(next),
{
    lemma_none_pending_between(o.files, i + 1, j);
    lemma_pending_grows(o.files, i, o.files.len() as int);
    lemma_pending_grows(o.files, j, o.files.len() as int);
    reveal_with_fuel(pending_files, 2);
}

proof fn lemma_none_pending_between(files: Seq<SessionFileView>, m: int, n: int)
    requires
        0 <= m <= n <= files.len(),
        forall|k: int| m <= k < n ==> (#[trigger] files[k]).session_file is Some,
    ensures
        pending_files(files, n) == pending_files(files, m),
    decreases n - m,
{
    if m < n {
        lemma_none_pending_between(files, m, n - 1);
    }
}

/// A path is looked for in all files of a workspace; the file with the smallest number that has it
/// is found.
pub proof fn law_smallest_number_is_found(files: FilesView, text: Seq<char>)
    requires
        files.by_id.dom().finite(),
    ensures
        workspace_file_named(files, text) is None <==> forall|f: u32| #[trigger]
            files.by_id.contains_key(f) ==> files.by_id[f].path.text != text,
        workspace_file_named(files, text) matches Some((file, path)) ==> {
            &&& files.by_id.contains_key(file)
            &&& files.by_id[file].path == path
            &&& path.text == text
            &&& forall|f: u32| #[trigger] files.by_id.contains_key(f) && f < file ==> files.by_id[f].path.text != text
        },
{
    let keys = sorted_keys::<u32>(files.by_id.dom());
    law_numbers_ascend(files.by_id.dom());
    lemma_first_named(files, text, keys.len() as int);
    assert forall|f: u32| #[trigger] files.by_id.contains_key(f) implies keys.contains(f) && keys[keys.index_of(f)] == f
        && 0 <= keys.index_of(f) < keys.len() by {
        assert(files.by_id.dom().contains(f) <==> keys.contains(f));
    }
    match workspace_file_named(files, text) {
        None => {
            assert forall|f: u32| #[trigger] files.by_id.contains_key(f) implies files.by_id[f].path.text != text by {
                assert(files.by_id[keys[keys.index_of(f)]].path.text != text);
            }
        },
        Some((file, path)) => {
            let at = choose|at: int|
                0 <= at < keys.len() && #[trigger] keys[at] == file && files.by_id[keys[at]].path == path && path.text == text && forall|k: int|
                    0 <= k < at ==> files.by_id[#[trigger] keys[k]].path.text != text;
            assert(keys.contains(keys[at]));
            assert(files.by_id.contains_key(file));
            assert forall|f: u32| #[trigger] files.by_id.contains_key(f) && f < file implies files.by_id[f].path.text != text by {
                let k = keys.index_of(f);
                if k >= at {
                    assert(k > at ==> keys[at] < keys[k]);
                }
                assert(files.by_id[keys[k]].path.text != text);
            }
        },
    }
}

proof fn lemma_first_named(files: FilesView, text: Seq<char>, n: int)
    requires
        0 <= n <= sorted_keys::<u32>(files.by_id.dom()).len(),
    ensures
        ({
            let keys = sorted_keys::<u32>(files.by_id.dom());
            match file_named(files, text, n) {
                None => forall|k: int| 0 <= k < n ==> files.by_id[#[trigger] keys[k]].path.text != text,
                Some((file, path)) => exists|at: int|
                    0 <= at < n && #[trigger] keys[at] == file && files.by_id[keys[at]].path == path && path.text == text && forall|k: int|
                        0 <= k < at ==> files.by_id[#[trigger] keys[k]].path.text != text,
            }
        }),
    decreases n,
{
    if n > 0 {
        lemma_first_named(files, text, n - 1);
        let keys = sorted_keys::<u32>(files.by_id.dom());
        if file_named(files, text, n - 1) is None && file_named(files, text, n) is Some {
            assert(keys[n - 1] == sorted_keys::<u32>(files.by_id.dom())[n - 1]);
        }
    }
}

pub open spec fn has_text(files: FilesView, text: Seq<char>) -> bool {
    exists|f: u32| #[trigger] files.by_id.contains_key(f) && files.by_id[f].path.text == text
}

/// A path is looked for in the workspaces in their order: the file is one of the first workspace
/// that has the path, and there is none if no workspace has it.
pub proof fn law_first_workspace_gives_the_file(ws: Seq<LoadedView>, indexes: Seq<usize>, text: Seq<char>, n: int)
    requires
        0 <= n <= indexes.len(),
        forall|i: int| 0 <= i < ws.len() ==> (#[trigger] ws[i]).files.by_id.dom().finite(),
    ensures
        match found_file(ws, indexes, text, n) {
            None => forall|i: int|
                0 <= i < n && (#[trigger] indexes[i]) < ws.len() ==> !has_text(ws[indexes[i] as int].files, text),
            Some((file, path)) => exists|i: int|
                0 <= i < n && (#[trigger] indexes[i]) < ws.len() && ws[indexes[i] as int].files.by_id.contains_key(file)
                    && ws[indexes[i] as int].files.by_id[file].path == path && path.text == text && forall|j: int|
                    0 <= j < i && (#[trigger] indexes[j]) < ws.len() ==> !has_text(ws[indexes[j] as int].files, text),
        },
    decreases n,
{
    if n > 0 {
        law_first_workspace_gives_the_file(ws, indexes, text, n - 1);
        if indexes[n - 1] < ws.len() {
            law_smallest_number_is_found(ws[indexes[n - 1] as int].files, text);
        }
    }
}

/// The root file of a crate is that of the last crate with its number, under the path that the
/// source root of the file has for it. Without such a crate or path there is none.
pub proof fn law_root_file_has_its_path(w: WorldView, krate: u32, c: int)
    requires
        0 <= c < w.base.crates.len(),
        w.base.crates[c].id == krate,
        forall|d: int| c < d < w.base.crates.len() ==> (#[trigger] w.base.crates[d]).id != krate,
    ensures
        ({
            let file = w.base.crates[c].root_file;
            let inputs = w.base.inputs;
            &&& crate_root(w, krate) is Some <==> inputs.file_roots.contains_key(file) && inputs.file_roots[file] < inputs.roots.len()
                && inputs.roots[inputs.file_roots[file] as int].files.contains_key(file)
            &&& crate_root(w, krate) is Some ==> crate_root(w, krate) == Some(
                (file, inputs.roots[inputs.file_roots[file] as int].files[file]),
            )
            &&& crate_dependencies(w, krate) == w.base.crates[c].dependencies
        }),
{
    lemma_last_numbered(w.base.crates, krate, c, w.base.crates.len() as int);
}

proof fn lemma_last_numbered(crates: Seq<CrateView>, krate: u32, c: int, n: int)
    requires
        0 <= c < n <= crates.len(),
        crates[c].id == krate,
        forall|d: int| c < d < n ==> (#[trigger] crates[d]).id != krate,
    ensures
        crate_numbered(crates, krate, n) == Some(crates[c]),
    decreases n,
{
    if c < n - 1 {
        lemma_last_numbered(crates, krate, c, n - 1);
    }
}

/// A crate that the world does not know has no root file and depends on nothing.
pub proof fn law_unknown_crate_has_no_root(w: WorldView, krate: u32)
    requires
        forall|c: int| 0 <= c < w.base.crates.len() ==> (#[trigger] w.base.crates[c]).id != krate,
    ensures
        crate_root(w, krate) is None,
        crate_dependencies(w, krate).len() == 0,
{
    lemma_unnumbered(w.base.crates, krate, w.base.crates.len() as int);
}

proof fn lemma_unnumbered(crates: Seq<CrateView>, krate: u32, n: int)
    requires
        0 <= n <= crates.len(),
        forall|c: int| 0 <= c < crates.len() ==> (#[trigger] crates[c]).id != krate,
    ensures
        crate_numbered(crates, krate, n) is None,
    decreases n,
{
    if n > 0 {
        lemma_unnumbered(crates, krate, n - 1);
    }
}

/// One of the first `n` crates depends on the given one.
pub open spec fn needed_by(w: WorldView, crates: Seq<u32>, n: int, krate: u32) -> bool {
    exists|i: int, d: int|
        0 <= i < n && 0 <= d < crate_dependencies(w, crates[i]).len() && #[trigger] crate_dependencies(w, crates[i])[d] == krate
}

/// Each entry of an overlay is for one of the first `n` crates, then the session has it for itself,
/// or for what one of them depends on, then it is shared.
pub open spec fn is_accounted_for(w: WorldView, crates: Seq<u32>, n: int, entry: SessionOverlayCrate) -> bool {
    match entry.session {
        None => exists|i: int| 0 <= i < n && #[trigger] crates[i] == entry.base,
        Some(shared) => shared == entry.base && needed_by(w, crates, n, entry.base),
    }
}

pub open spec fn is_root_of_some(w: WorldView, crates: Seq<u32>, n: int, entry: SessionFileView) -> bool {
    exists|i: int| 0 <= i < n && crate_root(w, #[trigger] crates[i]) == Some((entry.base_file, entry.path))
}

/// What a session needs to change a file is the file itself, the crates it belongs to, their root
/// files, and what these crates depend on. The crates become the session's own; what they depend on
/// is shared, and nothing else is part of it.
pub proof fn law_cone_is_the_crates_and_what_they_need(w: WorldView, p: PackagesView, file: u32, path: PathView, crates: Seq<u32>)
    requires
        pending_cone(w, p, file, path, crates) is Ok,
    ensures
        ({
            let o = pending_cone(w, p, file, path, crates)->Ok_0;
            let n = crates.len() as int;
            &&& o.files.len() >= 1
            &&& o.files[0] == (SessionFileView { base_file: file, session_file: None, path })
            &&& forall|i: int| 0 <= i < n ==> o.has_crate(#[trigger] crates[i]) && o.has_file((crate_root(w, crates[i])->0).0)
            &&& forall|krate: u32| #[trigger] needed_by(w, crates, n, krate) ==> o.has_crate(krate)
            &&& forall|e: int| 0 <= e < o.crates.len() ==> is_accounted_for(w, crates, n, #[trigger] o.crates[e])
            &&& forall|e: int|
                1 <= e < o.files.len() ==> (#[trigger] o.files[e]).session_file is None && is_root_of_some(w, crates, n, o.files[e])
            &&& n > 0 ==> o.crates.len() > 0 && o.crates[0] == (SessionOverlayCrate { base: crates[0], session: None })
        }),
{
    let start = SessionOverlayView { files: Seq::empty(), crates: Seq::empty() }.with_file(
        SessionFileView { base_file: file, session_file: None, path },
    );
    lemma_cones(start, w, p, file, path, crates, crates.len() as int);
}

spec fn cone_so_far(o: SessionOverlayView, w: WorldView, file: u32, path: PathView, crates: Seq<u32>, n: int) -> bool {
    &&& o.files.len() >= 1
    &&& o.files[0] == (SessionFileView { base_file: file, session_file: None, path })
    &&& forall|i: int| 0 <= i < n ==> o.has_crate(#[trigger] crates[i]) && o.has_file((crate_root(w, crates[i])->0).0)
    &&& forall|krate: u32| #[trigger] needed_by(w, crates, n, krate) ==> o.has_crate(krate)
    &&& forall|e: int| 0 <= e < o.crates.len() ==> is_accounted_for(w, crates, n, #[trigger] o.crates[e])
    &&& forall|e: int|
        1 <= e < o.files.len() ==> (#[trigger] o.files[e]).session_file is None && is_root_of_some(w, crates, n, o.files[e])
    &&& n > 0 ==> o.crates.len() > 0 && o.crates[0] == (SessionOverlayCrate { base: crates[0], session: None })
    &&& n == 0 ==> o.crates.len() == 0
}

proof fn lemma_crate_added(o: SessionOverlayView, entry: SessionOverlayCrate)
    ensures
        o.with_crate(entry).files == o.files,
        o.with_crate(entry).has_crate(entry.base),
        forall|krate: u32| #[trigger] o.has_crate(krate) ==> o.with_crate(entry).has_crate(krate),
        o.with_crate(entry).crates == o.crates || o.with_crate(entry).crates == o.crates.push(entry),
        o.crates.len() == 0 ==> o.with_crate(entry).crates == seq![entry],
{
    let r = o.with_crate(entry);
    if !o.has_crate(entry.base) {
        assert(r.crates[o.crates.len() as int].base == entry.base);
    }
    assert forall|krate: u32| #[trigger] o.has_crate(krate) implies r.has_crate(krate) by {
        let e = choose|e: int| 0 <= e < o.crates.len() && (#[trigger] o.crates[e]).base == krate;
        assert(r.crates[e].base == krate);
    }
}

proof fn lemma_file_added(o: SessionOverlayView, entry: SessionFileView)
    ensures
        o.with_file(entry).crates == o.crates,
        o.with_file(entry).has_file(entry.base_file),
        forall|f: u32| #[trigger] o.has_file(f) ==> o.with_file(entry).has_file(f),
        o.with_file(entry).files == o.files || o.with_file(entry).files == o.files.push(entry),
{
    let r = o.with_file(entry);
    if !o.has_file(entry.base_file) {
        assert(r.files[o.files.len() as int].base_file == entry.base_file);
    }
    assert forall|f: u32| #[trigger] o.has_file(f) implies r.has_file(f) by {
        let e = choose|e: int| 0 <= e < o.files.len() && (#[trigger] o.files[e]).base_file == f;
        assert(r.files[e].base_file == f);
    }
}

proof fn lemma_dependencies_added(o: SessionOverlayView, dependencies: Seq<u32>, n: int)
    requires
        0 <= n <= dependencies.len(),
    ensures
        ({
            let r = with_dependencies(o, dependencies, n);
            &&& r.files == o.files
            &&& forall|d: int| 0 <= d < n ==> r.has_crate(#[trigger] dependencies[d])
            &&& forall|krate: u32| #[trigger] o.has_crate(krate) ==> r.has_crate(krate)
            &&& r.crates.len() >= o.crates.len()
            &&& forall|e: int| 0 <= e < o.crates.len() ==> #[trigger] r.crates[e] == o.crates[e]
            &&& forall|e: int|
                o.crates.len() <= e < r.crates.len() ==> (#[trigger] r.crates[e]).session == Some(r.crates[e].base)
                    && dependencies.contains(r.crates[e].base)
        }),
    decreases n,
{
    if n > 0 {
        lemma_dependencies_added(o, dependencies, n - 1);
        let before = with_dependencies(o, dependencies, n - 1);
        let entry = SessionOverlayCrate { base: dependencies[n - 1], session: Some(dependencies[n - 1]) };
        lemma_crate_added(before, entry);
        assert(dependencies.contains(dependencies[n - 1]));
    }
}

proof fn lemma_cones(o: SessionOverlayView, w: WorldView, p: PackagesView, file: u32, path: PathView, crates: Seq<u32>, n: int)
    requires
        0 <= n <= crates.len(),
        o == (SessionOverlayView { files: Seq::empty(), crates: Seq::empty() }).with_file(
            SessionFileView { base_file: file, session_file: None, path },
        ),
        with_cones(o, w, p, crates, n) is Ok,
    ensures
        cone_so_far(with_cones(o, w, p, crates, n)->Ok_0, w, file, path, crates, n),
    decreases n,
{
    if n > 0 {
        lemma_cones(o, w, p, file, path, crates, n - 1);
        let before = with_cones(o, w, p, crates, n - 1)->Ok_0;
        let krate = crates[n - 1];
        let (root_file, root_path) = crate_root(w, krate)->0;
        let dependencies = crate_dependencies(w, krate);
        let own = SessionOverlayCrate { base: krate, session: None };
        let root = SessionFileView { base_file: root_file, session_file: None, path: root_path };
        let first = before.with_crate(own);
        let second = first.with_file(root);
        let after = with_dependencies(second, dependencies, dependencies.len() as int);
        assert(after == with_cones(o, w, p, crates, n)->Ok_0);
        lemma_crate_added(before, own);
        lemma_file_added(first, root);
        lemma_dependencies_added(second, dependencies, dependencies.len() as int);
        assert(second.crates == first.crates);
        assert forall|f: u32| #[trigger] before.has_file(f) implies after.has_file(f) by {
            assert(first.has_file(f)) by {
                let e = choose|e: int| 0 <= e < before.files.len() && (#[trigger] before.files[e]).base_file == f;
                assert(first.files[e].base_file == f);
            }
            let e = choose|e: int| 0 <= e < second.files.len() && (#[trigger] second.files[e]).base_file == f;
            assert(after.files[e].base_file == f);
        }
        assert(after.has_file(root_file)) by {
            let e = choose|e: int| 0 <= e < second.files.len() && (#[trigger] second.files[e]).base_file == root_file;
            assert(after.files[e].base_file == root_file);
        }
        assert forall|c: u32| first.has_crate(c) implies #[trigger] after.has_crate(c) by {
            let e = choose|e: int| 0 <= e < first.crates.len() && (#[trigger] first.crates[e]).base == c;
            assert(second.crates[e].base == c);
            assert(second.has_crate(c));
        }
        assert forall|i: int| 0 <= i < n implies after.has_crate(#[trigger] crates[i]) && after.has_file((crate_root(w, crates[i])->0).0) by {
            if i < n - 1 {
                assert(before.has_crate(crates[i]));
                assert(before.has_file((crate_root(w, crates[i])->0).0));
            }
        }
        assert forall|c: u32| #[trigger] needed_by(w, crates, n, c) implies after.has_crate(c) by {
            let (i, d) = choose|i: int, d: int|
                0 <= i < n && 0 <= d < crate_dependencies(w, crates[i]).len() && #[trigger] crate_dependencies(w, crates[i])[d] == c;
            if i < n - 1 {
                assert(needed_by(w, crates, n - 1, c));
                assert(before.has_crate(c));
            } else {
                assert(after.has_crate(dependencies[d]));
            }
        }
        assert forall|e: int| 0 <= e < after.crates.len() implies is_accounted_for(w, crates, n, #[trigger] after.crates[e]) by {
            let entry = after.crates[e];
            if e < second.crates.len() {
                assert(after.crates[e] == second.crates[e]);
                if e < before.crates.len() {
                    assert(is_accounted_for(w, crates, n - 1, before.crates[e]));
                    if let Some(shared) = entry.session {
                        let (i, d) = choose|i: int, d: int|
                            0 <= i < n - 1 && 0 <= d < crate_dependencies(w, crates[i]).len() && #[trigger] crate_dependencies(
                                w,
                                crates[i],
                            )[d] == entry.base;
                        assert(crate_dependencies(w, crates[i])[d] == entry.base);
                    }
                } else {
                    assert(crates[n - 1] == entry.base);
                }
            } else {
                let d = dependencies.index_of(entry.base);
                assert(crate_dependencies(w, crates[n - 1])[d] == entry.base);
            }
        }
        assert forall|e: int| 1 <= e < after.files.len() implies (#[trigger] after.files[e]).session_file is None && is_root_of_some(
            w,
            crates,
            n,
            after.files[e],
        ) by {
            if e < before.files.len() {
                assert(after.files[e] == before.files[e]);
                let i = choose|i: int|
                    0 <= i < n - 1 && crate_root(w, #[trigger] crates[i]) == Some((before.files[e].base_file, before.files[e].path));
                assert(crate_root(w, crates[i]) == Some((after.files[e].base_file, after.files[e].path)));
            } else {
                assert(crate_root(w, crates[n - 1]) == Some((after.files[e].base_file, after.files[e].path)));
            }
        }
    }
}

/// There is no overlay for a file if one of the crates cannot be part of it; the first such crate
/// tells why: its root file has no path, or else something it depends on cannot be shared.
pub proof fn law_first_crate_without_a_cone_is_told(w: WorldView, p: PackagesView, file: u32, path: PathView, crates: Seq<u32>)
    ensures
        match pending_cone(w, p, file, path, crates) {
            Ok(_) => forall|i: int| 0 <= i < crates.len() ==> can_join(w, p, #[trigger] crates[i]),
            Err(error) => exists|i: int|
                0 <= i < crates.len() && !can_join(w, p, #[trigger] crates[i]) && (forall|j: int|
                    0 <= j < i ==> can_join(w, p, #[trigger] crates[j])) && (error is PathUnavailable <==> crate_root(w, crates[i]) is None)
                    && (error is PathUnavailable || error is NotInterned),
        },
{
    let start = SessionOverlayView { files: Seq::empty(), crates: Seq::empty() }.with_file(
        SessionFileView { base_file: file, session_file: None, path },
    );
    lemma_first_without(start, w, p, crates, crates.len() as int);
}

/// The crate's root file has a path, and all it depends on can be shared.
pub open spec fn can_join(w: WorldView, p: PackagesView, krate: u32) -> bool {
    &&& crate_root(w, krate) is Some
    &&& forall|d: int| 0 <= d < crate_dependencies(w, krate).len() ==> interned(p, #[trigger] crate_dependencies(w, krate)[d]) is Ok
}

proof fn lemma_first_without(o: SessionOverlayView, w: WorldView, p: PackagesView, crates: Seq<u32>, n: int)
    requires
        0 <= n <= crates.len(),
    ensures
        match with_cones(o, w, p, crates, n) {
            Ok(_) => forall|i: int| 0 <= i < n ==> can_join(w, p, #[trigger] crates[i]),
            Err(error) => exists|i: int|
                0 <= i < n && !can_join(w, p, #[trigger] crates[i]) && (forall|j: int|
                    0 <= j < i ==> can_join(w, p, #[trigger] crates[j])) && (error is PathUnavailable <==> crate_root(w, crates[i]) is None)
                    && (error is PathUnavailable || error is NotInterned),
        },
    decreases n,
{
    if n > 0 {
        lemma_first_without(o, w, p, crates, n - 1);
        let dependencies = crate_dependencies(w, crates[n - 1]);
        law_first_unshared_crate_is_told(p, dependencies, dependencies.len() as int);
        if with_cones(o, w, p, crates, n - 1) is Ok && with_cones(o, w, p, crates, n) is Err {
            assert(!can_join(w, p, crates[n - 1]));
        }
    }
}

} // verus!
