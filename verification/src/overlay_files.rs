//! Which files a session's overlay needs.
//!
//! An overlay holds the files that the session has open, and with them every file of every crate
//! in view that depends on a crate in the same source root.
use crate::base::{
    base_line_endings, existing_file, in_view, lemma_existing, lemma_source_root_for_path,
    source_root_for_path, BaseView, WorldBase,
};
use crate::inputs::{CrateData, RootView, SourceRoot};
use crate::ordered::{lemma_sorted_exists, lemma_sorted_keys, listed, sorted_keys, OrderedMap};
use crate::paths::{FilePath, LineEndings, PathView};
use crate::shared::Replica;
use crate::text::{endings_of, line_endings_of};
use vstd::prelude::*;

verus! {

/// A file that a session has open. `classified` tells for each workspace of the world whether its
/// configuration covers the path, and whether as a library.
#[derive(Debug)]
pub struct OpenFile {
    pub path: FilePath,
    pub text: String,
    pub line_endings: LineEndings,
    pub classified: Vec<Option<bool>>,
}

#[verifier::ext_equal]
pub struct OpenFileView {
    pub path: PathView,
    pub text: Seq<char>,
    pub line_endings: LineEndings,
    pub classified: Seq<Option<bool>>,
}

impl View for OpenFile {
    type V = OpenFileView;

    open spec fn view(&self) -> OpenFileView {
        OpenFileView {
            path: self.path@,
            text: self.text@,
            line_endings: self.line_endings,
            classified: self.classified@,
        }
    }
}

pub open spec fn open_views(files: Seq<OpenFile>) -> Seq<OpenFileView> {
    files.map_values(|f: OpenFile| f@)
}

/// A file that the overlay needs: the file on disk if there is one, its source root, its path.
#[derive(Debug)]
pub struct RequiredFile {
    pub base_file: Option<u32>,
    pub base_source_root: u32,
    pub path: FilePath,
}

#[verifier::ext_equal]
pub struct RequiredView {
    pub base_file: Option<u32>,
    pub base_source_root: u32,
    pub path: PathView,
}

impl View for RequiredFile {
    type V = RequiredView;

    open spec fn view(&self) -> RequiredView {
        RequiredView { base_file: self.base_file, base_source_root: self.base_source_root, path: self.path@ }
    }
}

/// A file as it is to be put into the overlay.
#[derive(Debug)]
pub struct PreparedOverlayFile {
    pub base_file: Option<u32>,
    pub base_source_root: u32,
    pub path: FilePath,
    pub display_path: FilePath,
    pub text: String,
    pub line_endings: LineEndings,
    pub is_open: bool,
}

#[verifier::ext_equal]
pub struct PreparedView {
    pub base_file: Option<u32>,
    pub base_source_root: u32,
    pub path: PathView,
    pub display_path: PathView,
    pub text: Seq<char>,
    pub line_endings: LineEndings,
    pub is_open: bool,
}

impl View for PreparedOverlayFile {
    type V = PreparedView;

    open spec fn view(&self) -> PreparedView {
        PreparedView {
            base_file: self.base_file,
            base_source_root: self.base_source_root,
            path: self.path@,
            display_path: self.display_path@,
            text: self.text@,
            line_endings: self.line_endings,
            is_open: self.is_open,
        }
    }
}

pub open spec fn prepared_views(files: Seq<PreparedOverlayFile>) -> Seq<PreparedView> {
    files.map_values(|f: PreparedOverlayFile| f@)
}

pub open spec fn required_views(m: Map<Seq<char>, RequiredFile>) -> Map<Seq<char>, RequiredView> {
    m.map_values(|r: RequiredFile| r@)
}

/// An entry that is there stays.
pub open spec fn or_insert<V>(m: Map<Seq<char>, V>, k: Seq<char>, v: V) -> Map<Seq<char>, V> {
    if m.contains_key(k) {
        m
    } else {
        m.insert(k, v)
    }
}

/// The open files by canonical path: of two with one path the later counts.
pub open spec fn opened(files: Seq<OpenFileView>) -> Map<Seq<char>, usize>
    decreases files.len(),
{
    if files.len() == 0 {
        Map::empty()
    } else {
        opened(files.drop_last()).insert(files.last().path.key, (files.len() - 1) as usize)
    }
}

/// The files of a source root are needed, by ascending number up to the `n`th.
pub open spec fn root_required(
    m: Map<Seq<char>, RequiredView>,
    root: RootView,
    id: u32,
    n: int,
) -> Map<Seq<char>, RequiredView>
    decreases n,
{
    if n <= 0 {
        m
    } else {
        let before = root_required(m, root, id, n - 1);
        let file = sorted_keys::<u32>(root.files.dom())[n - 1];
        let path = root.files[file];
        or_insert(before, path.key, RequiredView { base_file: Some(file), base_source_root: id, path })
    }
}

pub open spec fn whole_root_required(m: Map<Seq<char>, RequiredView>, root: RootView, id: u32) -> Map<Seq<char>, RequiredView> {
    root_required(m, root, id, sorted_keys::<u32>(root.files.dom()).len() as int)
}

/// The crates of the first `n` root files are needed, as far as they are in view.
pub open spec fn dependents_required(
    m: Map<Seq<char>, RequiredView>,
    base: BaseView,
    indexes: Seq<usize>,
    roots: Seq<u32>,
    n: int,
) -> Map<Seq<char>, RequiredView>
    decreases n,
{
    if n <= 0 {
        m
    } else {
        let before = dependents_required(m, base, indexes, roots, n - 1);
        let file = roots[n - 1];
        if in_view(base.workspaces, indexes, file) {
            let id = base.inputs.file_roots[file];
            whole_root_required(before, base.inputs.roots[id as int], id)
        } else {
            before
        }
    }
}

/// What depends on a crate of the source root is needed, for the first `n` crates.
pub open spec fn cone_required(
    m: Map<Seq<char>, RequiredView>,
    base: BaseView,
    indexes: Seq<usize>,
    root: u32,
    n: int,
) -> Map<Seq<char>, RequiredView>
    decreases n,
{
    if n <= 0 {
        m
    } else {
        let before = cone_required(m, base, indexes, root, n - 1);
        let krate = base.crates[n - 1];
        if base.inputs.file_roots[krate.root_file] == root {
            dependents_required(before, base, indexes, krate.transitive_rev_deps, krate.transitive_rev_deps.len() as int)
        } else {
            before
        }
    }
}

/// The source root of an open file: that of the file on disk, or the one its path belongs to.
pub open spec fn open_file_root(base: BaseView, indexes: Seq<usize>, file: OpenFileView) -> Option<u32> {
    match existing_file(base.workspaces, indexes, file.path.key) {
        Some(on_disk) => Some(base.inputs.file_roots[on_disk]),
        None => match source_root_for_path(base, indexes, file.path.key, file.classified) {
            Some(found) => Some(found.0),
            None => None,
        },
    }
}

/// What an open file needs: itself, and what depends on its source root. A file without a source
/// root needs nothing.
pub open spec fn open_file_required(
    m: Map<Seq<char>, RequiredView>,
    base: BaseView,
    indexes: Seq<usize>,
    file: OpenFileView,
) -> Map<Seq<char>, RequiredView> {
    match open_file_root(base, indexes, file) {
        None => m,
        Some(root) => cone_required(
            or_insert(
                m,
                file.path.key,
                RequiredView {
                    base_file: existing_file(base.workspaces, indexes, file.path.key),
                    base_source_root: root,
                    path: file.path.normalized(),
                },
            ),
            base,
            indexes,
            root,
            base.crates.len() as int,
        ),
    }
}

/// What the first `n` open files need, by ascending path.
pub open spec fn files_required(base: BaseView, indexes: Seq<usize>, files: Seq<OpenFileView>, n: int) -> Map<Seq<char>, RequiredView>
    decreases n,
{
    if n <= 0 {
        Map::empty()
    } else {
        let before = files_required(base, indexes, files, n - 1);
        let key = sorted_keys::<String>(opened(files).dom())[n - 1];
        open_file_required(before, base, indexes, files[opened(files)[key] as int])
    }
}

pub open spec fn all_required(base: BaseView, indexes: Seq<usize>, files: Seq<OpenFileView>) -> Map<Seq<char>, RequiredView> {
    files_required(base, indexes, files, sorted_keys::<String>(opened(files).dom()).len() as int)
}

/// A needed file as it goes into the overlay: with the open text, or with the text on disk. A file
/// that is neither open nor on disk is left out.
pub open spec fn prepared_file(
    base: BaseView,
    indexes: Seq<usize>,
    files: Seq<OpenFileView>,
    key: Seq<char>,
    required: RequiredView,
) -> Option<PreparedView> {
    if opened(files).contains_key(key) {
        let open = files[opened(files)[key] as int];
        Some(
            PreparedView {
                base_file: required.base_file,
                base_source_root: required.base_source_root,
                path: required.path,
                display_path: open.path,
                text: open.text,
                line_endings: open.line_endings,
                is_open: true,
            },
        )
    } else {
        match required.base_file {
            None => None,
            Some(file) => {
                let text = base.inputs.texts[file];
                Some(
                    PreparedView {
                        base_file: Some(file),
                        base_source_root: required.base_source_root,
                        path: required.path,
                        display_path: required.path,
                        text,
                        line_endings: match base_line_endings(base.workspaces, indexes, file) {
                            Some(endings) => endings,
                            None => endings_of(text),
                        },
                        is_open: false,
                    },
                )
            },
        }
    }
}

/// The first `n` of the needed files, by ascending path.
pub open spec fn prepared_list(base: BaseView, indexes: Seq<usize>, files: Seq<OpenFileView>, n: int) -> Seq<PreparedView>
    decreases n,
{
    if n <= 0 {
        Seq::empty()
    } else {
        let before = prepared_list(base, indexes, files, n - 1);
        let required = all_required(base, indexes, files);
        let key = sorted_keys::<String>(required.dom())[n - 1];
        match prepared_file(base, indexes, files, key, required[key]) {
            Some(file) => before.push(file),
            None => before,
        }
    }
}

pub open spec fn prepared(base: BaseView, indexes: Seq<usize>, files: Seq<OpenFileView>) -> Seq<PreparedView> {
    prepared_list(
        base,
        indexes,
        files,
        sorted_keys::<String>(all_required(base, indexes, files).dom()).len() as int,
    )
}

/// Every file on disk that is needed has a text.
pub open spec fn texts_known(m: Map<Seq<char>, RequiredView>, base: BaseView) -> bool {
    forall|k: Seq<char>|
        #[trigger] m.contains_key(k) ==> (m[k].base_file matches Some(f) ==> base.inputs.texts.contains_key(f))
            && m[k].base_source_root < base.inputs.roots.len()
}

proof fn lemma_root_texts(m: Map<Seq<char>, RequiredView>, base: BaseView, id: u32, n: int)
    requires
        base.readable(),
        texts_known(m, base),
        id < base.inputs.roots.len(),
        n <= sorted_keys::<u32>(base.inputs.roots[id as int].files.dom()).len(),
    ensures
        texts_known(root_required(m, base.inputs.roots[id as int], id, n), base),
    decreases n,
{
    if n > 0 {
        lemma_root_texts(m, base, id, n - 1);
        let root = base.inputs.roots[id as int];
        let keys = sorted_keys::<u32>(root.files.dom());
        let file = keys[n - 1];
        lemma_sorted_exists::<u32>(root.files.dom());
        assert(keys.to_set().contains(file));
        assert(base.inputs.roots[id as int].files.contains_key(file));
    }
}

proof fn lemma_dependents_texts(m: Map<Seq<char>, RequiredView>, base: BaseView, indexes: Seq<usize>, c: int, n: int)
    requires
        base.readable(),
        texts_known(m, base),
        0 <= c < base.crates.len(),
        n <= base.crates[c].transitive_rev_deps.len(),
    ensures
        texts_known(dependents_required(m, base, indexes, base.crates[c].transitive_rev_deps, n), base),
    decreases n,
{
    if n > 0 {
        lemma_dependents_texts(m, base, indexes, c, n - 1);
        let roots = base.crates[c].transitive_rev_deps;
        let file = base.crates[c].transitive_rev_deps[n - 1];
        assert(base.inputs.file_roots.contains_key(file));
        let id = base.inputs.file_roots[file];
        let before = dependents_required(m, base, indexes, roots, n - 1);
        lemma_root_texts(before, base, id, sorted_keys::<u32>(base.inputs.roots[id as int].files.dom()).len() as int);
    }
}

proof fn lemma_cone_texts(m: Map<Seq<char>, RequiredView>, base: BaseView, indexes: Seq<usize>, root: u32, n: int)
    requires
        base.readable(),
        texts_known(m, base),
        n <= base.crates.len(),
    ensures
        texts_known(cone_required(m, base, indexes, root, n), base),
    decreases n,
{
    if n > 0 {
        lemma_cone_texts(m, base, indexes, root, n - 1);
        let before = cone_required(m, base, indexes, root, n - 1);
        lemma_dependents_texts(before, base, indexes, n - 1, base.crates[n - 1].transitive_rev_deps.len() as int);
    }
}

proof fn lemma_files_texts(base: BaseView, indexes: Seq<usize>, files: Seq<OpenFileView>, n: int)
    requires
        base.readable(),
    ensures
        texts_known(files_required(base, indexes, files, n), base),
    decreases n,
{
    if n > 0 {
        lemma_files_texts(base, indexes, files, n - 1);
        let before = files_required(base, indexes, files, n - 1);
        let key = sorted_keys::<String>(opened(files).dom())[n - 1];
        let file = files[opened(files)[key] as int];
        let on_disk = existing_file(base.workspaces, indexes, file.path.key);
        if on_disk is Some {
            lemma_existing(base, indexes, on_disk->0);
        } else {
            lemma_source_root_for_path(base, indexes, file.path.key, file.classified);
        }
        match open_file_root(base, indexes, file) {
            Some(root) => {
                let own = RequiredView { base_file: on_disk, base_source_root: root, path: file.path.normalized() };
                lemma_cone_texts(or_insert(before, file.path.key, own), base, indexes, root, base.crates.len() as int);
            },
            None => {},
        }
    }
}

/// The files on disk that the prepared files stand for have texts.
pub open spec fn known_bases(base: BaseView, files: Seq<PreparedView>) -> bool {
    forall|i: int|
        0 <= i < files.len() ==> ((#[trigger] files[i]).base_file matches Some(f) ==> base.inputs.texts.contains_key(f))
}

/// The source roots of the prepared files are there.
pub open spec fn known_roots(base: BaseView, files: Seq<PreparedView>) -> bool {
    forall|i: int| 0 <= i < files.len() ==> (#[trigger] files[i]).base_source_root < base.inputs.roots.len()
}

proof fn lemma_root_finite(m: Map<Seq<char>, RequiredView>, root: RootView, id: u32, n: int)
    requires
        m.dom().finite(),
    ensures
        root_required(m, root, id, n).dom().finite(),
    decreases n,
{
    if n > 0 {
        lemma_root_finite(m, root, id, n - 1);
        let before = root_required(m, root, id, n - 1);
        let k = root.files[sorted_keys::<u32>(root.files.dom())[n - 1]].key;
        if !before.contains_key(k) {
            assert(root_required(m, root, id, n).dom() =~= before.dom().insert(k));
        }
    }
}

proof fn lemma_dependents_finite(m: Map<Seq<char>, RequiredView>, base: BaseView, indexes: Seq<usize>, roots: Seq<u32>, n: int)
    requires
        m.dom().finite(),
    ensures
        dependents_required(m, base, indexes, roots, n).dom().finite(),
    decreases n,
{
    if n > 0 {
        lemma_dependents_finite(m, base, indexes, roots, n - 1);
        let before = dependents_required(m, base, indexes, roots, n - 1);
        let id = base.inputs.file_roots[roots[n - 1]];
        let root = base.inputs.roots[id as int];
        lemma_root_finite(before, root, id, sorted_keys::<u32>(root.files.dom()).len() as int);
    }
}

proof fn lemma_cone_finite(m: Map<Seq<char>, RequiredView>, base: BaseView, indexes: Seq<usize>, root: u32, n: int)
    requires
        m.dom().finite(),
    ensures
        cone_required(m, base, indexes, root, n).dom().finite(),
    decreases n,
{
    if n > 0 {
        lemma_cone_finite(m, base, indexes, root, n - 1);
        let deps = base.crates[n - 1].transitive_rev_deps;
        lemma_dependents_finite(cone_required(m, base, indexes, root, n - 1), base, indexes, deps, deps.len() as int);
    }
}

proof fn lemma_required_finite(base: BaseView, indexes: Seq<usize>, files: Seq<OpenFileView>, n: int)
    ensures
        files_required(base, indexes, files, n).dom().finite(),
    decreases n,
{
    if n > 0 {
        lemma_required_finite(base, indexes, files, n - 1);
        let before = files_required(base, indexes, files, n - 1);
        let file = files[opened(files)[sorted_keys::<String>(opened(files).dom())[n - 1]] as int];
        match open_file_root(base, indexes, file) {
            Some(root) => {
                let own = RequiredView {
                    base_file: existing_file(base.workspaces, indexes, file.path.key),
                    base_source_root: root,
                    path: file.path.normalized(),
                };
                let with_own = or_insert(before, file.path.key, own);
                if !before.contains_key(file.path.key) {
                    assert(with_own.dom() =~= before.dom().insert(file.path.key));
                }
                lemma_cone_finite(with_own, base, indexes, root, base.crates.len() as int);
            },
            None => {},
        }
    } else {
        assert(files_required(base, indexes, files, n).dom() =~= Set::empty());
    }
}

/// The files that open files need have texts and source roots.
pub proof fn lemma_prepared_known(base: BaseView, indexes: Seq<usize>, files: Seq<OpenFileView>)
    requires
        base.readable(),
    ensures
        known_bases(base, prepared(base, indexes, files)),
        known_roots(base, prepared(base, indexes, files)),
{
    let open_keys = sorted_keys::<String>(opened(files).dom());
    lemma_files_texts(base, indexes, files, open_keys.len() as int);
    lemma_required_finite(base, indexes, files, open_keys.len() as int);
    let required = all_required(base, indexes, files);
    lemma_sorted_exists::<String>(required.dom());
    lemma_prepared_list_known(base, indexes, files, sorted_keys::<String>(required.dom()).len() as int);
}

proof fn lemma_prepared_list_known(base: BaseView, indexes: Seq<usize>, files: Seq<OpenFileView>, n: int)
    requires
        texts_known(all_required(base, indexes, files), base),
        sorted_keys::<String>(all_required(base, indexes, files).dom()).to_set() == all_required(base, indexes, files).dom(),
        n <= sorted_keys::<String>(all_required(base, indexes, files).dom()).len(),
    ensures
        known_bases(base, prepared_list(base, indexes, files, n)),
        known_roots(base, prepared_list(base, indexes, files, n)),
    decreases n,
{
    if n > 0 {
        lemma_prepared_list_known(base, indexes, files, n - 1);
        let required = all_required(base, indexes, files);
        let keys = sorted_keys::<String>(required.dom());
        assert(keys.to_set().contains(keys[n - 1]));
        assert(required.contains_key(keys[n - 1]));
    }
}

/// The open files by canonical path.
pub fn open_by_path(files: &Vec<OpenFile>) -> (r: OrderedMap<String, usize>)
    ensures
        r@ == opened(open_views(files@)),
        forall|k: Seq<char>| #[trigger] r@.contains_key(k) ==> r@[k] < files@.len() && files@[r@[k] as int].path@.key == k,
{
    let ghost views = open_views(files@);
    let mut r: OrderedMap<String, usize> = OrderedMap::new();
    let mut i: usize = 0;
    proof {
        assert(views.take(0) =~= Seq::empty());
    }
    while i < files.len()
        invariant
            i <= files.len(),
            views == open_views(files@),
            r@ == opened(views.take(i as int)),
            forall|k: Seq<char>| #[trigger] r@.contains_key(k) ==> r@[k] < i && files@[r@[k] as int].path@.key == k,
        decreases files.len() - i,
    {
        let ghost before = r@;
        r.insert(files[i].path.key.clone(), i);
        proof {
            assert(views.take(i + 1).drop_last() =~= views.take(i as int));
            assert(views.take(i + 1).last() == files@[i as int]@);
            assert forall|k: Seq<char>| #[trigger] r@.contains_key(k) implies r@[k] < i + 1 && files@[r@[k] as int].path@.key == k by {
                if k != files@[i as int].path@.key {
                    assert(before.contains_key(k));
                }
            }
        }
        i = i + 1;
    }
    proof {
        assert(views.take(i as int) =~= views);
    }
    r
}

fn require(m: &mut OrderedMap<String, RequiredFile>, key: &String, file: RequiredFile)
    ensures
        required_views(final(m)@) == or_insert(required_views(old(m)@), key@, file@),
{
    if !m.contains_key(key) {
        m.insert(key.clone(), file);
        proof {
            assert(required_views(m@) =~= required_views(old(m)@).insert(key@, file@));
        }
    }
}

fn require_root(m: &mut OrderedMap<String, RequiredFile>, root: &SourceRoot, id: u32)
    ensures
        required_views(final(m)@) == whole_root_required(required_views(old(m)@), root@, id),
{
    let n = root.files.len();
    let ghost start = required_views(m@);
    let mut i: usize = 0;
    proof {
        lemma_sorted_keys(root.files);
        assert(root@.files.dom() =~= root.files@.dom());
    }
    while i < n
        invariant
            i <= n,
            n == root.files.keys().len(),
            listed(root.files),
            root.files.keys() == sorted_keys::<u32>(root@.files.dom()),
            required_views(m@) == root_required(start, root@, id, i as int),
        decreases n - i,
    {
        let file: u32 = *root.files.key_at(i);
        let path = root.files.value_at(i);
        proof {
            assert(root.files@.contains_key(root.files.keys()[i as int]));
            assert(root@.files[file] == path@);
        }
        require(
            m,
            &path.key,
            RequiredFile { base_file: Some(file), base_source_root: id, path: path.replica() },
        );
        i = i + 1;
    }
}

fn require_dependents(m: &mut OrderedMap<String, RequiredFile>, base: &WorldBase, indexes: &Vec<usize>, krate: &CrateData)
    requires
        base@.readable(),
        forall|r: int|
            0 <= r < krate.transitive_rev_deps@.len() ==> base@.inputs.file_roots.contains_key(
                #[trigger] krate.transitive_rev_deps@[r],
            ),
    ensures
        required_views(final(m)@) == dependents_required(
            required_views(old(m)@),
            base@,
            indexes@,
            krate.transitive_rev_deps@,
            krate.transitive_rev_deps@.len() as int,
        ),
{
    let ghost start = required_views(m@);
    let mut i: usize = 0;
    while i < krate.transitive_rev_deps.len()
        invariant
            i <= krate.transitive_rev_deps.len(),
            base@.readable(),
            forall|r: int|
                0 <= r < krate.transitive_rev_deps@.len() ==> base@.inputs.file_roots.contains_key(
                    #[trigger] krate.transitive_rev_deps@[r],
                ),
            required_views(m@) == dependents_required(start, base@, indexes@, krate.transitive_rev_deps@, i as int),
        decreases krate.transitive_rev_deps.len() - i,
    {
        let file: u32 = krate.transitive_rev_deps[i];
        if base.in_view(indexes, file) {
            let id = base.source_root_for_file(file);
            require_root(m, &base.inputs.roots[id as usize], id);
        }
        i = i + 1;
    }
}

fn require_cone(m: &mut OrderedMap<String, RequiredFile>, base: &WorldBase, indexes: &Vec<usize>, root: u32)
    requires
        base@.readable(),
    ensures
        required_views(final(m)@) == cone_required(
            required_views(old(m)@),
            base@,
            indexes@,
            root,
            base@.crates.len() as int,
        ),
{
    let ghost start = required_views(m@);
    let mut i: usize = 0;
    while i < base.base_crates.len()
        invariant
            i <= base.base_crates.len(),
            base@.readable(),
            required_views(m@) == cone_required(start, base@, indexes@, root, i as int),
        decreases base.base_crates.len() - i,
    {
        let krate = &base.base_crates[i];
        proof {
            assert(base@.inputs.file_roots.contains_key(base@.crates[i as int].root_file));
            assert forall|r: int| 0 <= r < krate.transitive_rev_deps@.len() implies base@.inputs.file_roots.contains_key(
                #[trigger] krate.transitive_rev_deps@[r],
            ) by {
                assert(base@.inputs.file_roots.contains_key(base@.crates[i as int].transitive_rev_deps[r]));
            }
        }
        if base.source_root_for_file(krate.root_file) == root {
            require_dependents(m, base, indexes, krate);
        }
        i = i + 1;
    }
}

fn require_open_file(m: &mut OrderedMap<String, RequiredFile>, base: &WorldBase, indexes: &Vec<usize>, file: &OpenFile)
    requires
        base@.readable(),
        file.classified.len() == base.workspaces.len(),
    ensures
        required_views(final(m)@) == open_file_required(required_views(old(m)@), base@, indexes@, file@),
{
    let base_file = base.existing_file(indexes, &file.path.key);
    let root = match base_file {
        Some(on_disk) => {
            proof {
                lemma_existing(base@, indexes@, on_disk);
            }
            base.source_root_for_file(on_disk)
        },
        None => match base.source_root_for_path(indexes, &file.path.key, &file.classified) {
            Some(found) => found.0,
            None => {
                return;
            },
        },
    };
    require(
        m,
        &file.path.key,
        RequiredFile { base_file, base_source_root: root, path: file.path.normalized() },
    );
    require_cone(m, base, indexes, root);
}

/// The files that the overlay of the open files needs, ready to be put into it, by ascending path.
pub fn prepare_session_overlay_files(base: &WorldBase, indexes: &Vec<usize>, files: &Vec<OpenFile>) -> (r: Vec<
    PreparedOverlayFile,
>)
    requires
        base@.readable(),
        forall|i: int| 0 <= i < files@.len() ==> (#[trigger] files@[i]).classified.len() == base.workspaces.len(),
    ensures
        prepared_views(r@) == prepared(base@, indexes@, open_views(files@)),
        known_bases(base@, prepared_views(r@)),
        known_roots(base@, prepared_views(r@)),
{
    let by_path = open_by_path(files);
    let mut required: OrderedMap<String, RequiredFile> = OrderedMap::new();
    let n = by_path.len();
    let mut i: usize = 0;
    proof {
        lemma_sorted_keys(by_path);
        assert(required_views(required@) =~= Map::empty());
    }
    while i < n
        invariant
            i <= n,
            n == by_path.keys().len(),
            listed(by_path),
            by_path@ == opened(open_views(files@)),
            by_path.keys() == sorted_keys::<String>(opened(open_views(files@)).dom()),
            forall|k: Seq<char>| #[trigger] by_path@.contains_key(k) ==> by_path@[k] < files@.len(),
            base@.readable(),
            forall|j: int| 0 <= j < files@.len() ==> (#[trigger] files@[j]).classified.len() == base.workspaces.len(),
            required_views(required@) == files_required(base@, indexes@, open_views(files@), i as int),
        decreases n - i,
    {
        let at: usize = *by_path.value_at(i);
        proof {
            assert(by_path@.contains_key(by_path.keys()[i as int]));
        }
        require_open_file(&mut required, base, indexes, &files[at]);
        i = i + 1;
    }
    let ghost all = all_required(base@, indexes@, open_views(files@));
    let mut r: Vec<PreparedOverlayFile> = Vec::new();
    let m = required.len();
    let mut j: usize = 0;
    proof {
        lemma_sorted_keys(required);
        assert(all.dom() =~= required@.dom());
        lemma_files_texts(base@, indexes@, open_views(files@), n as int);
        assert(prepared_views(r@) =~= Seq::empty());
    }
    while j < m
        invariant
            j <= m,
            m == required.keys().len(),
            listed(required),
            required_views(required@) == all,
            all == all_required(base@, indexes@, open_views(files@)),
            required.keys() == sorted_keys::<String>(all.dom()),
            by_path@ == opened(open_views(files@)),
            forall|k: Seq<char>| #[trigger] by_path@.contains_key(k) ==> by_path@[k] < files@.len(),
            texts_known(all, base@),
            prepared_views(r@) == prepared_list(base@, indexes@, open_views(files@), j as int),
            known_bases(base@, prepared_views(r@)),
            known_roots(base@, prepared_views(r@)),
        decreases m - j,
    {
        let key = required.key_at(j);
        let file = required.value_at(j);
        let ghost before = r@;
        proof {
            assert(required@.contains_key(required.keys()[j as int]));
            assert(all.contains_key(key@) && all[key@] == file@);
        }
        match by_path.get(key) {
            Some(at) => {
                let open = &files[*at];
                r.push(
                    PreparedOverlayFile {
                        base_file: file.base_file,
                        base_source_root: file.base_source_root,
                        path: file.path.replica(),
                        display_path: open.path.replica(),
                        text: open.text.clone(),
                        line_endings: open.line_endings,
                        is_open: true,
                    },
                );
                proof {
                    assert(prepared_views(r@) =~= prepared_views(before).push(r@[before.len() as int]@));
                }
            },
            None => match file.base_file {
                Some(base_file) => {
                    proof {
                        assert(all[key@].base_file == Some(base_file));
                    }
                    let text = match base.inputs.texts.get(&base_file) {
                        Some(text) => text.clone(),
                        None => String::new(),
                    };
                    let line_endings = match base.base_line_endings(indexes, base_file) {
                        Some(endings) => endings,
                        None => line_endings_of(&text),
                    };
                    r.push(
                        PreparedOverlayFile {
                            base_file: Some(base_file),
                            base_source_root: file.base_source_root,
                            path: file.path.replica(),
                            display_path: file.path.replica(),
                            text,
                            line_endings,
                            is_open: false,
                        },
                    );
                    proof {
                        assert(prepared_views(r@) =~= prepared_views(before).push(r@[before.len() as int]@));
                    }
                },
                None => {},
            },
        }
        j = j + 1;
    }
    r
}

} // verus!
