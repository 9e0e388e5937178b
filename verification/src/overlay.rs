//! What one session has put over the files on disk.
use crate::base::{base_line_endings, BaseView, WorldBase};
use crate::inputs::{CrateView, RootView, SourceRoot};
use crate::ordered::{lemma_sorted_keys, listed, sorted_keys, OrderedMap};
use crate::overlay_files::{known_bases, prepared_views, PreparedOverlayFile, PreparedView};
use crate::paths::{FilePath, LineEndings, PathView};
use crate::shared::Replica;
use vstd::prelude::*;

verus! {

/// A file of an overlay, under a number of its own.
#[derive(Debug)]
pub struct ActiveOverlayFile {
    pub overlay_file: u32,
    pub base_source_root: u32,
    pub path: FilePath,
    pub display_path: FilePath,
    pub text: String,
    pub line_endings: LineEndings,
}

#[verifier::ext_equal]
pub struct OverlayFileView {
    pub overlay_file: u32,
    pub base_source_root: u32,
    pub path: PathView,
    pub display_path: PathView,
    pub text: Seq<char>,
    pub line_endings: LineEndings,
}

impl View for ActiveOverlayFile {
    type V = OverlayFileView;

    open spec fn view(&self) -> OverlayFileView {
        OverlayFileView {
            overlay_file: self.overlay_file,
            base_source_root: self.base_source_root,
            path: self.path@,
            display_path: self.display_path@,
            text: self.text@,
            line_endings: self.line_endings,
        }
    }
}

/// The workspaces for which an overlay was made, the texts of the open files, all files by
/// canonical path, the paths by file number, and the crates whose root file is overlaid.
pub struct ActiveSessionOverlay {
    pub workspaces: Vec<usize>,
    pub open_files: OrderedMap<String, String>,
    pub files_by_path: OrderedMap<String, ActiveOverlayFile>,
    pub path_by_file: OrderedMap<u32, String>,
    pub crates: OrderedMap<u32, u32>,
}

#[verifier::ext_equal]
pub struct OverlayView {
    pub workspaces: Seq<usize>,
    pub open_files: Map<Seq<char>, Seq<char>>,
    pub files: Map<Seq<char>, OverlayFileView>,
    pub path_by_file: Map<u32, Seq<char>>,
    pub crates: Map<u32, u32>,
}

impl View for ActiveSessionOverlay {
    type V = OverlayView;

    open spec fn view(&self) -> OverlayView {
        OverlayView {
            workspaces: self.workspaces@,
            open_files: self.open_files@.map_values(|t: String| t@),
            files: self.files_by_path@.map_values(|f: ActiveOverlayFile| f@),
            path_by_file: self.path_by_file@.map_values(|k: String| k@),
            crates: self.crates@,
        }
    }
}

impl OverlayView {
    pub open spec fn empty() -> OverlayView {
        OverlayView {
            workspaces: Seq::empty(),
            open_files: Map::empty(),
            files: Map::empty(),
            path_by_file: Map::empty(),
            crates: Map::empty(),
        }
    }

    /// The two tables of files agree, open files are among the files with the same text, and the
    /// root files of overlaid crates are files of the overlay.
    pub open spec fn wf(self) -> bool {
        &&& forall|k: Seq<char>|
            #[trigger] self.files.contains_key(k) ==> self.path_by_file.contains_key(self.files[k].overlay_file)
                && self.path_by_file[self.files[k].overlay_file] == k
        &&& forall|f: u32|
            #[trigger] self.path_by_file.contains_key(f) ==> self.files.contains_key(self.path_by_file[f])
                && self.files[self.path_by_file[f]].overlay_file == f
        &&& forall|k: Seq<char>|
            #[trigger] self.open_files.contains_key(k) ==> self.files.contains_key(k) && self.files[k].text == self.open_files[k]
        &&& forall|c: u32| #[trigger] self.crates.contains_key(c) ==> self.path_by_file.contains_key(self.crates[c])
    }
}

impl ActiveSessionOverlay {
    pub fn empty() -> (r: Self)
        ensures
            r@ == OverlayView::empty(),
            r@.wf(),
    {
        let r = ActiveSessionOverlay {
            workspaces: Vec::new(),
            open_files: OrderedMap::new(),
            files_by_path: OrderedMap::new(),
            path_by_file: OrderedMap::new(),
            crates: OrderedMap::new(),
        };
        proof {
            assert(r@ =~= OverlayView::empty());
        }
        r
    }

    /// The numbers of the overlay's files, ascending.
    pub fn file_ids(&self) -> (r: Vec<u32>)
        ensures
            r@ == sorted_keys::<u32>(self@.path_by_file.dom()),
    {
        let n = self.path_by_file.len();
        let mut r: Vec<u32> = Vec::new();
        let mut i: usize = 0;
        while i < n
            invariant
                i <= n,
                n == self.path_by_file.keys().len(),
                r@ == self.path_by_file.keys().take(i as int),
            decreases n - i,
        {
            r.push(*self.path_by_file.key_at(i));
            proof {
                assert(self.path_by_file.keys().take(i + 1) =~= self.path_by_file.keys().take(i as int).push(
                    self.path_by_file.keys()[i as int],
                ));
            }
            i = i + 1;
        }
        proof {
            assert(self.path_by_file.keys().take(n as int) =~= self.path_by_file.keys());
            lemma_sorted_keys(self.path_by_file);
            assert(self@.path_by_file.dom() =~= self.path_by_file@.dom());
        }
        r
    }

    /// The overlay's files by path, and their display paths by number.
    pub fn file_mappings(&self) -> (r: (OrderedMap<String, u32>, OrderedMap<u32, FilePath>))
        requires
            self@.wf(),
        ensures
            r.0@ == self@.files.map_values(|f: OverlayFileView| f.overlay_file),
            r.1@.dom() == self@.path_by_file.dom(),
            forall|f: u32| #[trigger] r.1@.contains_key(f) ==> r.1@[f]@ == self@.files[self@.path_by_file[f]].display_path,
    {
        let n = self.files_by_path.len();
        let mut by_path: OrderedMap<String, u32> = OrderedMap::new();
        let mut by_file: OrderedMap<u32, FilePath> = OrderedMap::new();
        let ghost keys = self.files_by_path.keys();
        let ghost s = self@;
        let mut i: usize = 0;
        while i < n
            invariant
                i <= n,
                n == keys.len(),
                keys == self.files_by_path.keys(),
                listed(self.files_by_path),
                s == self@,
                s.wf(),
                forall|k: Seq<char>| #[trigger] by_path@.contains_key(k) <==> keys.take(i as int).contains(k),
                forall|k: Seq<char>| #[trigger] by_path@.contains_key(k) ==> s.files.contains_key(k) && by_path@[k] == s.files[k].overlay_file,
                forall|f: u32|
                    #[trigger] by_file@.contains_key(f) <==> s.path_by_file.contains_key(f) && keys.take(i as int).contains(
                        s.path_by_file[f],
                    ),
                forall|f: u32| #[trigger] by_file@.contains_key(f) ==> by_file@[f]@ == s.files[s.path_by_file[f]].display_path,
            decreases n - i,
        {
            let key = self.files_by_path.key_at(i);
            let file = self.files_by_path.value_at(i);
            proof {
                let k = keys[i as int];
                assert(self.files_by_path@.contains_key(keys[i as int]));
                assert(s.files.contains_key(k) && s.files[k] == file@);
                assert(keys.take(i + 1) =~= keys.take(i as int).push(k));
                assert(keys.take(i + 1)[i as int] == k);
                assert forall|o: Seq<char>| keys.take(i + 1).contains(o) <==> o == k || keys.take(i as int).contains(o) by {
                    if keys.take(i as int).contains(o) {
                        let j = keys.take(i as int).index_of(o);
                        assert(keys.take(i + 1)[j] == o);
                    }
                }
            }
            by_path.insert(key.clone(), file.overlay_file);
            by_file.insert(file.overlay_file, file.display_path.replica());
            i = i + 1;
        }
        proof {
            assert(keys.take(n as int) =~= keys);
            assert(by_path@ =~= s.files.map_values(|f: OverlayFileView| f.overlay_file)) by {
                assert forall|k: Seq<char>| by_path@.contains_key(k) <==> s.files.contains_key(k) by {
                    if s.files.contains_key(k) {
                        assert(self.files_by_path@.contains_key(k));
                        assert(keys.contains(k));
                    }
                }
            }
            assert(by_file@.dom() =~= s.path_by_file.dom()) by {
                assert forall|f: u32| s.path_by_file.contains_key(f) implies by_file@.contains_key(f) by {
                    assert(self.files_by_path@.contains_key(s.path_by_file[f]));
                    assert(keys.contains(s.path_by_file[f]));
                }
            }
        }
        (by_path, by_file)
    }
}

/// The overlays of all sessions.
pub open spec fn overlay_views(overlays: Map<u64, ActiveSessionOverlay>) -> Map<u64, OverlayView> {
    overlays.map_values(|o: ActiveSessionOverlay| o@)
}

/// An open file shows something else than the file on disk.
pub open spec fn shows_other(base: BaseView, indexes: Seq<usize>, file: PreparedView) -> bool {
    match file.base_file {
        None => true,
        Some(on_disk) => base.inputs.texts[on_disk] != file.text || base_line_endings(base.workspaces, indexes, on_disk)
            != Some(file.line_endings),
    }
}

/// The session needs an overlay: some open file shows something else than the file on disk.
pub open spec fn overlay_needed(base: BaseView, indexes: Seq<usize>, files: Seq<PreparedView>) -> bool {
    exists|i: int| 0 <= i < files.len() && (#[trigger] files[i]).is_open && shows_other(base, indexes, files[i])
}

pub open spec fn open_count(files: Seq<PreparedView>) -> nat
    decreases files.len(),
{
    if files.len() == 0 {
        0
    } else {
        open_count(files.drop_last()) + (if files.last().is_open {
            1nat
        } else {
            0nat
        })
    }
}

/// The overlay holds something else for a file than it should.
pub open spec fn entry_differs(overlay: OverlayView, file: PreparedView) -> bool {
    let key = file.path.key;
    ||| !overlay.files.contains_key(key)
    ||| overlay.files[key].text != file.text
    ||| overlay.files[key].line_endings != file.line_endings
    ||| overlay.files[key].path != file.path
    ||| overlay.files[key].display_path != file.display_path
    ||| overlay.files[key].base_source_root != file.base_source_root
    ||| if file.is_open {
        !overlay.open_files.contains_key(key) || overlay.open_files[key] != file.text
    } else {
        overlay.open_files.contains_key(key)
    }
}

/// The session's overlay is not the one that the files ask for.
pub open spec fn overlay_changed(
    base: BaseView,
    indexes: Seq<usize>,
    overlay: Option<OverlayView>,
    files: Seq<PreparedView>,
) -> bool {
    if !overlay_needed(base, indexes, files) {
        overlay is Some && overlay->0.files.dom().len() != 0
    } else {
        match overlay {
            None => true,
            Some(overlay) => {
                ||| overlay.files.dom().len() != files.len()
                ||| overlay.open_files.dom().len() != open_count(files)
                ||| exists|i: int| 0 <= i < files.len() && entry_differs(overlay, #[trigger] files[i])
            },
        }
    }
}

/// Whether some open file shows something else than the file on disk.
pub fn needs_overlay(base: &WorldBase, indexes: &Vec<usize>, files: &Vec<PreparedOverlayFile>) -> (r: bool)
    requires
        known_bases(base@, prepared_views(files@)),
    ensures
        r == overlay_needed(base@, indexes@, prepared_views(files@)),
{
    let ghost views = prepared_views(files@);
    let mut i: usize = 0;
    while i < files.len()
        invariant
            i <= files.len(),
            views == prepared_views(files@),
            known_bases(base@, views),
            forall|j: int| 0 <= j < i ==> !((#[trigger] views[j]).is_open && shows_other(base@, indexes@, views[j])),
        decreases files.len() - i,
    {
        let file = &files[i];
        proof {
            assert(views[i as int] == file@);
        }
        if file.is_open {
            let other = match file.base_file {
                None => true,
                Some(on_disk) => {
                    let same_text = match base.inputs.texts.get(&on_disk) {
                        Some(text) => *text == file.text,
                        None => false,
                    };
                    let same_endings = match base.base_line_endings(indexes, on_disk) {
                        Some(endings) => endings == file.line_endings,
                        None => false,
                    };
                    !same_text || !same_endings
                },
            };
            if other {
                return true;
            }
        }
        i = i + 1;
    }
    false
}

fn count_open(files: &Vec<PreparedOverlayFile>) -> (r: usize)
    ensures
        r == open_count(prepared_views(files@)),
{
    let ghost views = prepared_views(files@);
    let mut n: usize = 0;
    let mut i: usize = 0;
    proof {
        assert(views.take(0) =~= Seq::empty());
    }
    while i < files.len()
        invariant
            i <= files.len(),
            n <= i,
            views == prepared_views(files@),
            n == open_count(views.take(i as int)),
        decreases files.len() - i,
    {
        proof {
            assert(views.take(i + 1).drop_last() =~= views.take(i as int));
            assert(views.take(i + 1).last() == files@[i as int]@);
        }
        if files[i].is_open {
            n = n + 1;
        }
        i = i + 1;
    }
    proof {
        assert(views.take(i as int) =~= views);
    }
    n
}

fn differs(overlay: &ActiveSessionOverlay, file: &PreparedOverlayFile) -> (r: bool)
    ensures
        r == entry_differs(overlay@, file@),
{
    let active_changed = match overlay.files_by_path.get(&file.path.key) {
        None => true,
        Some(active) => !(active.text == file.text) || active.line_endings != file.line_endings || !active.path.same(
            &file.path,
        ) || !active.display_path.same(&file.display_path) || active.base_source_root != file.base_source_root,
    };
    let open_changed = match overlay.open_files.get(&file.path.key) {
        Some(text) => if file.is_open {
            !(*text == file.text)
        } else {
            true
        },
        None => file.is_open,
    };
    active_changed || open_changed
}

/// Whether the overlay is not the one that the files ask for.
pub fn session_overlay_changed(
    base: &WorldBase,
    indexes: &Vec<usize>,
    current: Option<&ActiveSessionOverlay>,
    files: &Vec<PreparedOverlayFile>,
) -> (r: bool)
    requires
        known_bases(base@, prepared_views(files@)),
    ensures
        r == overlay_changed(
            base@,
            indexes@,
            match current {
                Some(o) => Some(o@),
                None => None,
            },
            prepared_views(files@),
        ),
{
    let ghost views = prepared_views(files@);
    if !needs_overlay(base, indexes, files) {
        return match current {
            Some(overlay) => {
                let n = overlay.files_by_path.len();
                proof {
                    overlay.files_by_path.lemma_len();
                    assert(overlay@.files.dom() =~= overlay.files_by_path@.dom());
                }
                n != 0
            },
            None => false,
        };
    }
    match current {
        None => true,
        Some(overlay) => {
            let n = overlay.files_by_path.len();
            let m = overlay.open_files.len();
            proof {
                overlay.files_by_path.lemma_len();
                overlay.open_files.lemma_len();
                assert(overlay@.files.dom() =~= overlay.files_by_path@.dom());
                assert(overlay@.open_files.dom() =~= overlay.open_files@.dom());
            }
            if n != files.len() || m != count_open(files) {
                return true;
            }
            let mut i: usize = 0;
            while i < files.len()
                invariant
                    i <= files.len(),
                    views == prepared_views(files@),
                    current == Some(overlay),
                    overlay_needed(base@, indexes@, views),
                    forall|j: int| 0 <= j < i ==> !entry_differs(overlay@, #[trigger] views[j]),
                decreases files.len() - i,
            {
                proof {
                    assert(views[i as int] == files@[i as int]@);
                }
                if differs(overlay, &files[i]) {
                    return true;
                }
                i = i + 1;
            }
            false
        },
    }
}

/// The root file of a crate has a place in the overlay.
pub open spec fn overlaid_root(base: BaseView, overlay: OverlayView, krate: CrateView) -> Option<u32> {
    let root = base.inputs.roots[base.inputs.file_roots[krate.root_file] as int];
    if root.files.contains_key(krate.root_file) && overlay.files.contains_key(root.files[krate.root_file].key) {
        Some(overlay.files[root.files[krate.root_file].key].overlay_file)
    } else {
        None
    }
}

/// The overlaid crates among the first `n`, with their overlaid root files.
pub open spec fn overlaid_crates(base: BaseView, overlay: OverlayView, n: int) -> Map<u32, u32>
    decreases n,
{
    if n <= 0 {
        overlay.crates
    } else {
        let before = overlaid_crates(base, overlay, n - 1);
        let krate = base.crates[n - 1];
        match overlaid_root(base, overlay, krate) {
            Some(file) => before.insert(krate.id, file),
            None => before,
        }
    }
}

/// Finds the crates whose root file is in the overlay.
pub fn populate_overlay_crates(base: &WorldBase, overlay: &mut ActiveSessionOverlay)
    requires
        base@.readable(),
        old(overlay)@.wf(),
    ensures
        final(overlay)@ == (OverlayView {
            crates: overlaid_crates(base@, old(overlay)@, base@.crates.len() as int),
            ..old(overlay)@
        }),
        final(overlay)@.wf(),
{
    let mut i: usize = 0;
    let ghost start = overlay@;
    while i < base.base_crates.len()
        invariant
            i <= base.base_crates.len(),
            base@.readable(),
            start.wf(),
            overlay@.wf(),
            overlay@ == (OverlayView { crates: overlaid_crates(base@, start, i as int), ..start }),
        decreases base.base_crates.len() - i,
    {
        let krate = &base.base_crates[i];
        proof {
            assert(base@.crates[i as int] == krate@);
            assert(base@.inputs.file_roots.contains_key(base@.crates[i as int].root_file));
        }
        let id = base.source_root_for_file(krate.root_file);
        let root = &base.inputs.roots[id as usize];
        let mut found: Option<u32> = None;
        match root.files.get(&krate.root_file) {
            Some(path) => {
                match overlay.files_by_path.get(&path.key) {
                    Some(file) => {
                        found = Some(file.overlay_file);
                        proof {
                            assert(overlay@.files.contains_key(path@.key));
                        }
                    },
                    None => {},
                }
            },
            None => {},
        }
        proof {
            assert(found == overlaid_root(base@, start, krate@));
        }
        let ghost before = overlay@;
        match found {
            Some(file) => {
                overlay.crates.insert(krate.id, file);
                proof {
                    assert(overlay@ =~= (OverlayView { crates: before.crates.insert(krate.id, file), ..before }));
                }
            },
            None => {},
        }
        i = i + 1;
    }
}

/// The overlay's files of one source root, as a source root of their own.
pub open spec fn overlay_root(overlay: OverlayView, base_root: u32, is_library: bool) -> RootView {
    RootView {
        is_library,
        files: Map::new(
            |f: u32| overlay.path_by_file.contains_key(f) && overlay.files[overlay.path_by_file[f]].base_source_root == base_root,
            |f: u32| overlay.files[overlay.path_by_file[f]].path,
        ),
    }
}

/// The source roots that have files in the overlay.
pub open spec fn overlaid_roots(overlay: OverlayView) -> Set<u32> {
    Set::new(|r: u32| exists|k: Seq<char>| #[trigger] overlay.files.contains_key(k) && overlay.files[k].base_source_root == r)
}

impl ActiveSessionOverlay {
    /// The overlay's files of one source root, as a source root of their own.
    pub fn root_of(&self, base_root: u32, is_library: bool) -> (r: SourceRoot)
        requires
            self@.wf(),
        ensures
            r@ == overlay_root(self@, base_root, is_library),
    {
        let n = self.path_by_file.len();
        let mut files: OrderedMap<u32, FilePath> = OrderedMap::new();
        let ghost keys = self.path_by_file.keys();
        let ghost s = self@;
        let ghost want = overlay_root(s, base_root, is_library).files;
        let mut i: usize = 0;
        while i < n
            invariant
                i <= n,
                n == keys.len(),
                keys == self.path_by_file.keys(),
                listed(self.path_by_file),
                s == self@,
                s.wf(),
                want == overlay_root(s, base_root, is_library).files,
                forall|f: u32| #[trigger] files@.contains_key(f) <==> want.contains_key(f) && keys.take(i as int).contains(f),
                forall|f: u32| #[trigger] files@.contains_key(f) ==> files@[f]@ == want[f],
            decreases n - i,
        {
            let file: u32 = *self.path_by_file.key_at(i);
            let key = self.path_by_file.value_at(i);
            proof {
                assert(self.path_by_file@.contains_key(keys[i as int]));
                assert(s.path_by_file.contains_key(file) && s.path_by_file[file] == key@);
                assert(keys.take(i + 1) =~= keys.take(i as int).push(file));
                assert(keys.take(i + 1)[i as int] == file);
                assert forall|f: u32| keys.take(i + 1).contains(f) <==> f == file || keys.take(i as int).contains(f) by {
                    if keys.take(i as int).contains(f) {
                        let j = keys.take(i as int).index_of(f);
                        assert(keys.take(i + 1)[j] == f);
                    }
                }
            }
            match self.files_by_path.get(key) {
                Some(entry) => {
                    proof {
                        assert(s.files[key@] == entry@);
                    }
                    if entry.base_source_root == base_root {
                        files.insert(file, entry.path.replica());
                    }
                },
                None => {},
            }
            i = i + 1;
        }
        let r = SourceRoot { is_library, files };
        proof {
            assert(keys.take(n as int) =~= keys);
            assert(r@.files =~= want) by {
                assert forall|f: u32| want.contains_key(f) implies r@.files.contains_key(f) by {
                    assert(self.path_by_file@.contains_key(f));
                    assert(keys.contains(f));
                }
            }
        }
        r
    }

    /// The source roots that have files in the overlay, ascending.
    pub fn roots(&self) -> (r: Vec<u32>)
        ensures
            r@ == sorted_keys::<u32>(overlaid_roots(self@)),
            forall|i: int| 0 <= i < r@.len() ==> overlaid_roots(self@).contains(#[trigger] r@[i]),
    {
        let n = self.files_by_path.len();
        let mut found: OrderedMap<u32, usize> = OrderedMap::new();
        let ghost keys = self.files_by_path.keys();
        let ghost s = self@;
        let mut i: usize = 0;
        while i < n
            invariant
                i <= n,
                n == keys.len(),
                keys == self.files_by_path.keys(),
                listed(self.files_by_path),
                s == self@,
                forall|x: u32|
                    #[trigger] found@.contains_key(x) <==> exists|j: int|
                        0 <= j < i && s.files[#[trigger] keys[j]].base_source_root == x,
            decreases n - i,
        {
            let root = self.files_by_path.value_at(i).base_source_root;
            let ghost before = found@;
            found.insert(root, i);
            proof {
                assert(self.files_by_path@.contains_key(keys[i as int]));
                assert(s.files[keys[i as int]].base_source_root == root);
                assert forall|x: u32|
                    #[trigger] found@.contains_key(x) <==> exists|j: int|
                        0 <= j < i + 1 && s.files[#[trigger] keys[j]].base_source_root == x by {
                    if before.contains_key(x) {
                        let j = choose|j: int| 0 <= j < i && s.files[#[trigger] keys[j]].base_source_root == x;
                        assert(s.files[keys[j]].base_source_root == x);
                    }
                }
            }
            i = i + 1;
        }
        proof {
            assert(found@.dom() =~= overlaid_roots(s)) by {
                assert forall|x: u32| found@.dom().contains(x) <==> overlaid_roots(s).contains(x) by {
                    if found@.contains_key(x) {
                        let j = choose|j: int| 0 <= j < n && s.files[#[trigger] keys[j]].base_source_root == x;
                        assert(self.files_by_path@.contains_key(keys[j]));
                        assert(s.files.contains_key(keys[j]));
                    }
                    if overlaid_roots(s).contains(x) {
                        let k = choose|k: Seq<char>| #[trigger] s.files.contains_key(k) && s.files[k].base_source_root == x;
                        assert(self.files_by_path@.contains_key(k));
                        let j = keys.index_of(k);
                        assert(s.files[keys[j]].base_source_root == x);
                    }
                }
            }
        }
        let m = found.len();
        let mut r: Vec<u32> = Vec::new();
        let mut j: usize = 0;
        while j < m
            invariant
                j <= m,
                m == found.keys().len(),
                r@ == found.keys().take(j as int),
            decreases m - j,
        {
            r.push(*found.key_at(j));
            proof {
                assert(found.keys().take(j + 1) =~= found.keys().take(j as int).push(found.keys()[j as int]));
            }
            j = j + 1;
        }
        proof {
            assert(found.keys().take(m as int) =~= found.keys());
            lemma_sorted_keys(found);
            assert forall|i: int| 0 <= i < r@.len() implies overlaid_roots(self@).contains(#[trigger] r@[i]) by {
                assert(found@.contains_key(found.keys()[i]));
            }
        }
        r
    }
}

} // verus!
