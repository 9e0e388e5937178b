//! What a session makes of files that changed under it.
use crate::disk::{FileChangeView, SharedBaseFileChange};
use crate::files::SharedFileMappings;
use crate::ordered::OrderedMap;
use crate::overlay_files::{open_views, OpenFile, OpenFileView};
use crate::paths::{is_ratoml, names_ratoml, names_rust, is_rust, FilePath, LineEndings, PathView};
use crate::text::{decode, decoded};
use vstd::prelude::*;

verus! {

#[derive(Clone, Copy, Debug, PartialEq, Eq, Structural)]
pub enum ChangeKind {
    Create,
    Modify,
    Delete,
}

/// A file that changed: its number in the session's own file system, its path and whether that is
/// one on disk, what it holds now unless it is gone, and what the session knows of the path.
#[derive(Debug)]
pub struct ChangedFile {
    pub file: u32,
    pub path: FilePath,
    pub on_disk: bool,
    pub kind: ChangeKind,
    pub bytes: Vec<u8>,
    /// The crates depend on the file.
    pub in_crate_graph: bool,
    /// A change of what the file holds asks for the workspaces again.
    pub refreshes: bool,
    /// The file is open in the editor.
    pub open: bool,
    /// Which loaded workspaces the path belongs to.
    pub classified: Vec<bool>,
}

#[verifier::ext_equal]
pub struct ChangedView {
    pub file: u32,
    pub path: PathView,
    pub on_disk: bool,
    pub kind: ChangeKind,
    pub bytes: Seq<u8>,
    pub in_crate_graph: bool,
    pub refreshes: bool,
    pub open: bool,
    pub classified: Seq<bool>,
}

impl View for ChangedFile {
    type V = ChangedView;

    open spec fn view(&self) -> ChangedView {
        ChangedView {
            file: self.file,
            path: self.path@,
            on_disk: self.on_disk,
            kind: self.kind,
            bytes: self.bytes@,
            in_crate_graph: self.in_crate_graph,
            refreshes: self.refreshes,
            open: self.open,
            classified: self.classified@,
        }
    }
}

pub open spec fn changed_views(files: Seq<ChangedFile>) -> Seq<ChangedView> {
    files.map_values(|f: ChangedFile| f@)
}

/// A settings file that changed, and its text unless it is gone or not text.
#[derive(Debug)]
pub struct ModifiedRatoml {
    pub kind: ChangeKind,
    pub path: FilePath,
    pub text: Option<String>,
}

#[verifier::ext_equal]
pub struct ModifiedView {
    pub kind: ChangeKind,
    pub path: PathView,
    pub text: Option<Seq<char>>,
}

impl View for ModifiedRatoml {
    type V = ModifiedView;

    open spec fn view(&self) -> ModifiedView {
        ModifiedView { kind: self.kind, path: self.path@, text: self.text.deep_view() }
    }
}

pub open spec fn modified_views(files: Seq<ModifiedRatoml>) -> Seq<ModifiedView> {
    files.map_values(|f: ModifiedRatoml| f@)
}

/// What changed files come to.
pub struct SessionChanges {
    pub changed: bool,
    pub modified_ratoml_files: Vec<ModifiedRatoml>,
    /// The workspaces are to be fetched again because of this path, and whether the crates must be
    /// seen to anew.
    pub structure: Option<(FilePath, bool)>,
    /// Files that are gone, whose diagnostics are to be cleared.
    pub cleared: Vec<u32>,
    /// The changes that the world is to be told of.
    pub base: Vec<SharedBaseFileChange>,
}

#[verifier::ext_equal]
pub struct ChangesView {
    pub endings: Map<u32, LineEndings>,
    pub ratoml: Seq<ModifiedView>,
    pub structure: Option<(PathView, bool)>,
    pub cleared: Seq<u32>,
    pub base: Seq<FileChangeView>,
}

pub open spec fn base_views(files: Seq<SharedBaseFileChange>) -> Seq<FileChangeView> {
    files.map_values(|f: SharedBaseFileChange| f@)
}

pub open spec fn structure_view(structure: Option<(FilePath, bool)>) -> Option<(PathView, bool)> {
    match structure {
        Some(change) => Some((change.0@, change.1)),
        None => None,
    }
}

pub open spec fn changes_view(r: SessionChanges, endings: Map<u32, LineEndings>) -> ChangesView {
    ChangesView {
        endings,
        ratoml: modified_views(r.modified_ratoml_files@),
        structure: structure_view(r.structure),
        cleared: r.cleared@,
        base: base_views(r.base@),
    }
}

impl ChangedView {
    pub open spec fn text(self) -> Option<(Seq<char>, LineEndings)> {
        if self.kind == ChangeKind::Delete {
            None
        } else {
            decoded(self.bytes)
        }
    }

    /// The first path counts, and one file that the crates depend on is enough.
    pub open spec fn structure(self, before: Option<(PathView, bool)>) -> Option<(PathView, bool)> {
        if !self.on_disk {
            before
        } else if self.kind != ChangeKind::Modify {
            match before {
                Some((path, force)) => Some((path, force || self.in_crate_graph)),
                None => Some((self.path, self.in_crate_graph)),
            }
        } else if self.refreshes && before is None {
            Some((self.path, false))
        } else {
            before
        }
    }
}

pub open spec fn get<V>(m: Map<u32, V>, k: u32) -> Option<V> {
    if m.contains_key(k) {
        Some(m[k])
    } else {
        None
    }
}

/// What one more changed file adds.
pub open spec fn noted(before: ChangesView, file: ChangedView, mappings: SharedFileMappings) -> ChangesView {
    let text = file.text();
    let endings = match text {
        Some((_, endings)) => before.endings.insert(file.file, endings),
        None => before.endings,
    };
    let gone = file.kind == ChangeKind::Delete;
    ChangesView {
        endings,
        ratoml: if is_ratoml(file.path.text) {
            before.ratoml.push(
                ModifiedView {
                    kind: file.kind,
                    path: file.path.normalized(),
                    text: match text {
                        Some((text, _)) => Some(text),
                        None => None,
                    },
                },
            )
        } else {
            before.ratoml
        },
        structure: file.structure(before.structure),
        cleared: if gone && mappings.lookup(file.path.key) is Some {
            before.cleared.push(mappings.lookup(file.path.key)->0)
        } else {
            before.cleared
        },
        base: if !file.open {
            before.base.push(
                FileChangeView {
                    path: file.path,
                    exists: !gone,
                    text: match text {
                        Some((text, _)) => Some(text),
                        None => None,
                    },
                    line_endings: get(endings, file.file),
                    classified: file.classified,
                },
            )
        } else {
            before.base
        },
    }
}

/// What the first `n` changed files come to.
pub open spec fn noted_to(endings: Map<u32, LineEndings>, files: Seq<ChangedView>, mappings: SharedFileMappings, n: int) -> ChangesView
    decreases n,
{
    if n <= 0 {
        ChangesView {
            endings,
            ratoml: Seq::empty(),
            structure: None,
            cleared: Seq::empty(),
            base: Seq::empty(),
        }
    } else {
        noted(noted_to(endings, files, mappings, n - 1), files[n - 1], mappings)
    }
}

impl SessionChanges {
    fn none(changed: bool) -> (r: Self)
        ensures
            r.changed == changed,
            forall|endings: Map<u32, LineEndings>| #[trigger] changes_view(r, endings) == (ChangesView {
                endings,
                ratoml: Seq::empty(),
                structure: None,
                cleared: Seq::empty(),
                base: Seq::empty(),
            }),
    {
        let r = SessionChanges {
            changed,
            modified_ratoml_files: Vec::new(),
            structure: None,
            cleared: Vec::new(),
            base: Vec::new(),
        };
        proof {
            assert(modified_views(r.modified_ratoml_files@) =~= Seq::empty());
            assert(base_views(r.base@) =~= Seq::empty());
        }
        r
    }

    fn note_structure(&mut self, path: &FilePath, on_disk: bool, kind: ChangeKind, in_crate_graph: bool, refreshes: bool)
        ensures
            final(self).changed == old(self).changed,
            final(self).modified_ratoml_files == old(self).modified_ratoml_files,
            final(self).cleared == old(self).cleared,
            final(self).base == old(self).base,
            forall|file: ChangedView|
                file.path == path@ && file.on_disk == on_disk && file.kind == kind && file.in_crate_graph == in_crate_graph
                    && file.refreshes == refreshes ==> structure_view(final(self).structure) == #[trigger] file.structure(
                    structure_view(old(self).structure),
                ),
    {
        if !on_disk {
            return;
        }
        let modified = match kind {
            ChangeKind::Modify => true,
            _ => false,
        };
        match &mut self.structure {
            Some(change) => {
                if !modified && in_crate_graph {
                    change.1 = true;
                }
            },
            None => {
                if !modified {
                    self.structure = Some((path.duplicate(), in_crate_graph));
                } else if refreshes {
                    self.structure = Some((path.duplicate(), false));
                }
            },
        }
    }

    fn note(&mut self, file: ChangedFile, endings: &mut OrderedMap<u32, LineEndings>, mappings: &SharedFileMappings)
        ensures
            final(self).changed == old(self).changed,
            changes_view(*final(self), final(endings)@) == noted(changes_view(*old(self), old(endings)@), file@, *mappings),
    {
        let ghost before = changes_view(*self, endings@);
        let ghost model = file@;
        let ghost was = *self;
        let gone = match file.kind {
            ChangeKind::Delete => true,
            _ => false,
        };
        let text = if gone {
            None
        } else {
            match decode(file.bytes) {
                Some((text, found)) => {
                    endings.insert(file.file, found);
                    Some(text)
                },
                None => None,
            }
        };
        let ghost ghost_text = text.deep_view();
        proof {
            assert(ghost_text == (match model.text() {
                Some((text, _)) => Some(text),
                None => None,
            }));
        }
        if names_ratoml(&file.path.text) {
            let modified = ModifiedRatoml {
                kind: file.kind,
                path: file.path.normalized(),
                text: match &text {
                    Some(text) => Some(text.clone()),
                    None => None,
                },
            };
            let ghost one = modified@;
            self.modified_ratoml_files.push(modified);
            proof {
                assert(modified_views(self.modified_ratoml_files@) =~= before.ratoml.push(one));
            }
        }
        self.note_structure(&file.path, file.on_disk, file.kind, file.in_crate_graph, file.refreshes);
        proof {
            assert(structure_view(self.structure) == model.structure(before.structure));
        }
        if gone {
            match mappings.file_id(&file.path) {
                Some(known) => self.cleared.push(known),
                None => {},
            }
        }
        if !file.open {
            let line_endings = match endings.get(&file.file) {
                Some(found) => Some(*found),
                None => None,
            };
            let change = SharedBaseFileChange {
                path: file.path,
                exists: !gone,
                text,
                line_endings,
                classified: file.classified,
            };
            let ghost one = change@;
            self.base.push(change);
            proof {
                assert(base_views(self.base@) =~= before.base.push(one));
            }
        }
    }

    /// Goes through the files that changed. The table of line endings is kept up to date.
    pub fn collect(
        files: Vec<ChangedFile>,
        endings: &mut OrderedMap<u32, LineEndings>,
        mappings: &SharedFileMappings,
    ) -> (r: SessionChanges)
        ensures
            r.changed == (files@.len() > 0),
            changes_view(r, final(endings)@) == noted_to(old(endings)@, changed_views(files@), *mappings, files@.len() as int),
    {
        let ghost whole = files@;
        let ghost start = endings@;
        let mut files = files;
        let mut r = SessionChanges::none(files.len() > 0);
        let ghost mut i: int = 0;
        proof {
            assert(whole.skip(0) =~= whole);
            assert(changes_view(r, endings@) =~= noted_to(start, changed_views(whole), *mappings, 0));
        }
        while files.len() > 0
            invariant
                0 <= i <= whole.len(),
                files@ == whole.skip(i),
                r.changed == (whole.len() > 0),
                changes_view(r, endings@) == noted_to(start, changed_views(whole), *mappings, i),
            decreases files.len(),
        {
            let file = files.remove(0);
            proof {
                assert(file == whole[i]);
                assert(changed_views(whole)[i] == file@);
                assert(files@ =~= whole.skip(i + 1));
            }
            r.note(file, endings, mappings);
            proof {
                i = i + 1;
            }
        }
        r
    }
}

/// A file that the editor has open.
#[derive(Debug)]
pub struct Document {
    pub path: FilePath,
    pub on_disk: bool,
    pub data: Vec<u8>,
    /// For each loaded workspace whether it covers the path, and as what.
    pub classified: Vec<Option<bool>>,
}

#[verifier::ext_equal]
pub struct DocumentView {
    pub path: PathView,
    pub on_disk: bool,
    pub data: Seq<u8>,
    pub classified: Seq<Option<bool>>,
}

impl View for Document {
    type V = DocumentView;

    open spec fn view(&self) -> DocumentView {
        DocumentView {
            path: self.path@,
            on_disk: self.on_disk,
            data: self.data@,
            classified: self.classified@,
        }
    }
}

pub open spec fn document_views(docs: Seq<Document>) -> Seq<DocumentView> {
    docs.map_values(|d: Document| d@)
}

/// What the first `n` documents ask of the overlay: those that are text.
pub open spec fn opened_to(docs: Seq<DocumentView>, n: int) -> Seq<OpenFileView>
    decreases n,
{
    if n <= 0 {
        Seq::empty()
    } else {
        let before = opened_to(docs, n - 1);
        let doc = docs[n - 1];
        match decoded(doc.data) {
            Some((text, line_endings)) => before.push(
                OpenFileView { path: doc.path, text, line_endings, classified: doc.classified },
            ),
            None => before,
        }
    }
}

/// The files that the session's overlay is to show as the editor has them.
pub fn open_documents(docs: Vec<Document>) -> (r: Vec<OpenFile>)
    ensures
        open_views(r@) == opened_to(document_views(docs@), docs@.len() as int),
{
    let ghost whole = docs@;
    let mut docs = docs;
    let mut r: Vec<OpenFile> = Vec::new();
    let ghost mut i: int = 0;
    proof {
        assert(whole.skip(0) =~= whole);
        assert(open_views(r@) =~= Seq::empty());
    }
    while docs.len() > 0
        invariant
            0 <= i <= whole.len(),
            docs@ == whole.skip(i),
            open_views(r@) == opened_to(document_views(whole), i),
        decreases docs.len(),
    {
        let ghost before = open_views(r@);
        let doc = docs.remove(0);
        proof {
            assert(doc == whole[i]);
            assert(document_views(whole)[i] == doc@);
            assert(docs@ =~= whole.skip(i + 1));
        }
        match decode(doc.data) {
            Some((text, line_endings)) => {
                let file = OpenFile { path: doc.path, text, line_endings, classified: doc.classified };
                let ghost one = file@;
                r.push(file);
                proof {
                    assert(open_views(r@) =~= before.push(one));
                }
            },
            None => {},
        }
        proof {
            i = i + 1;
        }
    }
    r
}

/// The session's files among the first `n` open documents that are Rust sources on disk.
pub open spec fn rust_files_to(docs: Seq<(PathView, bool)>, mappings: SharedFileMappings, n: int) -> Seq<u32>
    decreases n,
{
    if n <= 0 {
        Seq::empty()
    } else {
        let before = rust_files_to(docs, mappings, n - 1);
        if docs[n - 1].1 && is_rust(docs[n - 1].0.text) && mappings.lookup(docs[n - 1].0.key) is Some {
            before.push(mappings.lookup(docs[n - 1].0.key)->0)
        } else {
            before
        }
    }
}

pub open spec fn place_views(docs: Seq<(FilePath, bool)>) -> Seq<(PathView, bool)> {
    docs.map_values(|d: (FilePath, bool)| (d.0@, d.1))
}

/// The Rust sources that are open, each path with whether it is on disk.
pub fn modified_rust_files(docs: &Vec<(FilePath, bool)>, mappings: &SharedFileMappings) -> (r: Vec<u32>)
    ensures
        r@ == rust_files_to(place_views(docs@), *mappings, docs@.len() as int),
{
    let mut r: Vec<u32> = Vec::new();
    let mut i: usize = 0;
    while i < docs.len()
        invariant
            i <= docs.len(),
            r@ == rust_files_to(place_views(docs@), *mappings, i as int),
        decreases docs.len() - i,
    {
        proof {
            assert(place_views(docs@)[i as int] == (docs@[i as int].0@, docs@[i as int].1));
        }
        if docs[i].1 && names_rust(&docs[i].0.text) {
            match mappings.file_id(&docs[i].0) {
                Some(file) => r.push(file),
                None => {},
            }
        }
        i = i + 1;
    }
    r
}

/// A file that is open does not reach the world when it changes: others keep seeing what was saved.
/// Every change that the world is told of is that of a file that is not open.
pub proof fn law_open_files_are_kept_back(endings: Map<u32, LineEndings>, files: Seq<ChangedView>, mappings: SharedFileMappings, n: int, i: int)
    requires
        0 <= n <= files.len(),
        0 <= i < noted_to(endings, files, mappings, n).base.len(),
    ensures
        exists|j: int|
            0 <= j < n && (#[trigger] files[j]).path == noted_to(endings, files, mappings, n).base[i].path && !files[j].open,
    decreases n,
{
    if n > 0 {
        let before = noted_to(endings, files, mappings, n - 1);
        if i < before.base.len() {
            law_open_files_are_kept_back(endings, files, mappings, n - 1, i);
            let j = choose|j: int| 0 <= j < n - 1 && (#[trigger] files[j]).path == before.base[i].path && !files[j].open;
            assert(files[j].path == noted_to(endings, files, mappings, n).base[i].path);
        } else {
            assert(files[n - 1].path == noted_to(endings, files, mappings, n).base[i].path);
        }
    }
}

/// The file was made or deleted on disk, or is one that asks for the workspaces again.
spec fn restructures(file: ChangedView) -> bool {
    file.on_disk && (file.kind != ChangeKind::Modify || file.refreshes)
}

proof fn lemma_structure(endings: Map<u32, LineEndings>, files: Seq<ChangedView>, mappings: SharedFileMappings, n: int)
    requires
        0 <= n <= files.len(),
    ensures
        match noted_to(endings, files, mappings, n).structure {
            None => forall|j: int| 0 <= j < n ==> !restructures(#[trigger] files[j]),
            Some((path, force)) => {
                &&& exists|j: int|
                    0 <= j < n && restructures(#[trigger] files[j]) && files[j].path == path && forall|i: int|
                        0 <= i < j ==> !restructures(#[trigger] files[i])
                &&& force <==> exists|j: int|
                    0 <= j < n && (#[trigger] files[j]).on_disk && files[j].kind != ChangeKind::Modify
                        && files[j].in_crate_graph
            },
        },
    decreases n,
{
    if n > 0 {
        lemma_structure(endings, files, mappings, n - 1);
        let before = noted_to(endings, files, mappings, n - 1).structure;
        let last = files[n - 1];
        let now = noted_to(endings, files, mappings, n).structure;
        assert(now == last.structure(before));
        match before {
            None => {
                assert forall|j: int| 0 <= j < n - 1 implies !((#[trigger] files[j]).on_disk && files[j].kind
                    != ChangeKind::Modify && files[j].in_crate_graph) by {
                    assert(!restructures(files[j]));
                }
                if now is Some {
                    assert(restructures(files[n - 1]));
                }
            },
            Some((path, force)) => {
                let j = choose|j: int|
                    0 <= j < n - 1 && restructures(#[trigger] files[j]) && files[j].path == path && forall|i: int|
                        0 <= i < j ==> !restructures(#[trigger] files[i]);
                assert(restructures(files[j]));
                if force {
                    let k = choose|k: int|
                        0 <= k < n - 1 && (#[trigger] files[k]).on_disk && files[k].kind != ChangeKind::Modify
                            && files[k].in_crate_graph;
                    assert(files[k].in_crate_graph);
                }
            },
        }
    }
}

/// The workspaces are fetched again exactly when a file was made or deleted on disk, or one was
/// modified that asks for it, such as a manifest. It is the first such file that is named, and the
/// crates are seen to anew exactly when one of the files made or deleted is one that they depend on.
pub proof fn law_manifests_ask_for_the_workspaces(endings: Map<u32, LineEndings>, files: Seq<ChangedView>, mappings: SharedFileMappings)
    ensures
        ({
            let structure = noted_to(endings, files, mappings, files.len() as int).structure;
            &&& structure is Some <==> exists|j: int|
                0 <= j < files.len() && (#[trigger] files[j]).on_disk && (files[j].kind == ChangeKind::Create || files[j].kind
                    == ChangeKind::Delete || files[j].refreshes)
            &&& structure matches Some((path, force)) ==> {
                &&& exists|j: int|
                    0 <= j < files.len() && (#[trigger] files[j]).on_disk && (files[j].kind == ChangeKind::Create
                        || files[j].kind == ChangeKind::Delete || files[j].refreshes) && files[j].path == path && forall|i: int|
                        0 <= i < j ==> !((#[trigger] files[i]).on_disk && (files[i].kind == ChangeKind::Create || files[i].kind
                            == ChangeKind::Delete || files[i].refreshes))
                &&& force <==> exists|j: int|
                    0 <= j < files.len() && (#[trigger] files[j]).on_disk && (files[j].kind == ChangeKind::Create
                        || files[j].kind == ChangeKind::Delete) && files[j].in_crate_graph
            }
        }),
{
    let structure = noted_to(endings, files, mappings, files.len() as int).structure;
    lemma_structure(endings, files, mappings, files.len() as int);
    match structure {
        None => {
            assert forall|j: int| 0 <= j < files.len() implies !((#[trigger] files[j]).on_disk && (files[j].kind
                == ChangeKind::Create || files[j].kind == ChangeKind::Delete || files[j].refreshes)) by {
                assert(!restructures(files[j]));
            }
        },
        Some((path, _)) => {
            let j = choose|j: int|
                0 <= j < files.len() && restructures(#[trigger] files[j]) && files[j].path == path && forall|i: int|
                    0 <= i < j ==> !restructures(#[trigger] files[i]);
            assert(files[j].on_disk);
            assert forall|i: int| 0 <= i < j implies !((#[trigger] files[i]).on_disk && (files[i].kind == ChangeKind::Create
                || files[i].kind == ChangeKind::Delete || files[i].refreshes)) by {
                assert(!restructures(files[i]));
            }
        },
    }
}

/// The files that are not open, in their order.
pub open spec fn unopened(files: Seq<ChangedView>) -> Seq<ChangedView> {
    files.filter(|f: ChangedView| !f.open)
}

/// The files that are gone and that the session knows by a number, in their order.
pub open spec fn gone_from(files: Seq<ChangedView>, mappings: SharedFileMappings) -> Seq<ChangedView> {
    files.filter(|f: ChangedView| f.kind == ChangeKind::Delete && mappings.lookup(f.path.key) is Some)
}

/// The files that hold settings, in their order.
pub open spec fn settings_among(files: Seq<ChangedView>) -> Seq<ChangedView> {
    files.filter(|f: ChangedView| is_ratoml(f.path.text))
}

/// What the world is told of a file is what became of it: it exists unless it was deleted, a deleted
/// file and one that is no text have no text, and the others have the text of their bytes.
spec fn told_of(change: FileChangeView, file: ChangedView) -> bool {
    &&& change.path == file.path
    &&& change.exists == (file.kind != ChangeKind::Delete)
    &&& file.kind == ChangeKind::Delete ==> change.text is None
    &&& file.kind != ChangeKind::Delete ==> (match decoded(file.bytes) {
        Some((text, line_endings)) => change.text == Some(text) && change.line_endings == Some(line_endings),
        None => change.text is None,
    })
    &&& change.classified == file.classified
}

proof fn lemma_told(endings: Map<u32, LineEndings>, files: Seq<ChangedView>, mappings: SharedFileMappings, n: int)
    requires
        0 <= n <= files.len(),
    ensures
        ({
            let base = noted_to(endings, files, mappings, n).base;
            &&& base.len() == unopened(files.take(n)).len()
            &&& forall|k: int| 0 <= k < base.len() ==> told_of(#[trigger] base[k], unopened(files.take(n))[k])
        }),
    decreases n,
{
    reveal(Seq::filter);
    if n > 0 {
        lemma_told(endings, files, mappings, n - 1);
        assert(files.take(n).drop_last() =~= files.take(n - 1));
        let before = noted_to(endings, files, mappings, n - 1);
        let base = noted_to(endings, files, mappings, n).base;
        let list = unopened(files.take(n));
        assert forall|k: int| 0 <= k < base.len() implies told_of(#[trigger] base[k], list[k]) by {
            if k < before.base.len() {
                assert(told_of(before.base[k], unopened(files.take(n - 1))[k]));
            }
        }
    }
}

/// The world is told of the changed files that are not open, of each once and in their order, and of
/// no others: by its path and its place, that it exists unless it was deleted, and the text that its
/// bytes encode, with its line endings. Of a deleted file and of one that is no text it is told none.
pub proof fn law_world_is_told_what_became_of_files(
    endings: Map<u32, LineEndings>,
    files: Seq<ChangedView>,
    mappings: SharedFileMappings,
    k: int,
)
    requires
        0 <= k < unopened(files).len(),
    ensures
        ({
            let base = noted_to(endings, files, mappings, files.len() as int).base;
            let file = unopened(files)[k];
            &&& base.len() == unopened(files).len()
            &&& base[k].path == file.path
            &&& base[k].exists == (file.kind != ChangeKind::Delete)
            &&& file.kind == ChangeKind::Delete ==> base[k].text is None
            &&& file.kind != ChangeKind::Delete ==> (match decoded(file.bytes) {
                Some((text, line_endings)) => base[k].text == Some(text) && base[k].line_endings == Some(line_endings),
                None => base[k].text is None,
            })
            &&& base[k].classified == file.classified
        }),
{
    lemma_told(endings, files, mappings, files.len() as int);
    assert(files.take(files.len() as int) =~= files);
    let base = noted_to(endings, files, mappings, files.len() as int).base;
    assert(told_of(base[k], unopened(files)[k]));
}

proof fn lemma_cleared(endings: Map<u32, LineEndings>, files: Seq<ChangedView>, mappings: SharedFileMappings, n: int)
    requires
        0 <= n <= files.len(),
    ensures
        ({
            let cleared = noted_to(endings, files, mappings, n).cleared;
            let list = gone_from(files.take(n), mappings);
            &&& cleared.len() == list.len()
            &&& forall|k: int| 0 <= k < list.len() ==> mappings.lookup((#[trigger] list[k]).path.key) == Some(cleared[k])
        }),
    decreases n,
{
    reveal(Seq::filter);
    if n > 0 {
        lemma_cleared(endings, files, mappings, n - 1);
        assert(files.take(n).drop_last() =~= files.take(n - 1));
        let was = gone_from(files.take(n - 1), mappings);
        let list = gone_from(files.take(n), mappings);
        let cleared = noted_to(endings, files, mappings, n).cleared;
        assert forall|k: int| 0 <= k < list.len() implies mappings.lookup((#[trigger] list[k]).path.key) == Some(cleared[k]) by {
            if k < was.len() {
                assert(was[k] == list[k]);
            }
        }
    }
}

/// The diagnostics are cleared of the files that are gone and that the session knows by a number, of
/// each under that number, and of no others.
pub proof fn law_gone_files_lose_their_diagnostics(
    endings: Map<u32, LineEndings>,
    files: Seq<ChangedView>,
    mappings: SharedFileMappings,
)
    ensures
        ({
            let cleared = noted_to(endings, files, mappings, files.len() as int).cleared;
            let list = gone_from(files, mappings);
            &&& cleared.len() == list.len()
            &&& forall|k: int| 0 <= k < list.len() ==> mappings.lookup((#[trigger] list[k]).path.key) == Some(cleared[k])
        }),
{
    lemma_cleared(endings, files, mappings, files.len() as int);
    assert(files.take(files.len() as int) =~= files);
}

proof fn lemma_settings(endings: Map<u32, LineEndings>, files: Seq<ChangedView>, mappings: SharedFileMappings, n: int)
    requires
        0 <= n <= files.len(),
    ensures
        ({
            let ratoml = noted_to(endings, files, mappings, n).ratoml;
            let list = settings_among(files.take(n));
            &&& ratoml.len() == list.len()
            &&& forall|k: int|
                0 <= k < list.len() ==> {
                    &&& ratoml[k].kind == (#[trigger] list[k]).kind
                    &&& ratoml[k].path.key == list[k].path.key && ratoml[k].path.text == list[k].path.key
                    &&& list[k].kind == ChangeKind::Delete ==> ratoml[k].text is None
                    &&& list[k].kind != ChangeKind::Delete ==> (match decoded(list[k].bytes) {
                        Some((text, _)) => ratoml[k].text == Some(text),
                        None => ratoml[k].text is None,
                    })
                }
        }),
    decreases n,
{
    reveal(Seq::filter);
    if n > 0 {
        lemma_settings(endings, files, mappings, n - 1);
        assert(files.take(n).drop_last() =~= files.take(n - 1));
        let was = settings_among(files.take(n - 1));
        let list = settings_among(files.take(n));
        let ratoml = noted_to(endings, files, mappings, n).ratoml;
        assert forall|k: int| 0 <= k < list.len() implies {
            &&& ratoml[k].kind == (#[trigger] list[k]).kind
            &&& ratoml[k].path.key == list[k].path.key && ratoml[k].path.text == list[k].path.key
            &&& list[k].kind == ChangeKind::Delete ==> ratoml[k].text is None
            &&& list[k].kind != ChangeKind::Delete ==> (match decoded(list[k].bytes) {
                Some((text, _)) => ratoml[k].text == Some(text),
                None => ratoml[k].text is None,
            })
        } by {
            if k < was.len() {
                assert(was[k] == list[k]);
            }
        }
    }
}

/// Every settings file that changed is handed on, each once and in their order, under its normal path
/// and with what became of it: a deleted one without a text, another with the text of its bytes.
pub proof fn law_changed_settings_are_handed_on(
    endings: Map<u32, LineEndings>,
    files: Seq<ChangedView>,
    mappings: SharedFileMappings,
)
    ensures
        ({
            let ratoml = noted_to(endings, files, mappings, files.len() as int).ratoml;
            let list = settings_among(files);
            &&& ratoml.len() == list.len()
            &&& forall|k: int|
                0 <= k < list.len() ==> {
                    &&& ratoml[k].kind == (#[trigger] list[k]).kind
                    &&& ratoml[k].path.key == list[k].path.key && ratoml[k].path.text == list[k].path.key
                    &&& list[k].kind == ChangeKind::Delete ==> ratoml[k].text is None
                    &&& list[k].kind != ChangeKind::Delete ==> (match decoded(list[k].bytes) {
                        Some((text, _)) => ratoml[k].text == Some(text),
                        None => ratoml[k].text is None,
                    })
                }
        }),
{
    lemma_settings(endings, files, mappings, files.len() as int);
    assert(files.take(files.len() as int) =~= files);
}

/// The table of line endings follows the texts: a number keeps its line endings unless a file of that
/// number came with a text, and the last text that came decides.
pub proof fn law_line_endings_follow_the_texts(
    endings: Map<u32, LineEndings>,
    files: Seq<ChangedView>,
    mappings: SharedFileMappings,
    n: int,
    file: u32,
)
    requires
        0 <= n <= files.len(),
    ensures
        ({
            let table = noted_to(endings, files, mappings, n).endings;
            let texts = |j: int| files[j].file == file && files[j].kind != ChangeKind::Delete && decoded(files[j].bytes) is Some;
            &&& (forall|j: int| 0 <= j < n ==> !#[trigger] texts(j)) ==> get(table, file) == get(endings, file)
            &&& forall|j: int|
                0 <= j < n && #[trigger] texts(j) && (forall|i: int| j < i < n ==> !#[trigger] texts(i)) ==> (decoded(
                    files[j].bytes,
                ) matches Some((_, line_endings)) && get(table, file) == Some(line_endings))
        }),
    decreases n,
{
    if n > 0 {
        law_line_endings_follow_the_texts(endings, files, mappings, n - 1, file);
        let texts = |j: int| files[j].file == file && files[j].kind != ChangeKind::Delete && decoded(files[j].bytes) is Some;
        let was = noted_to(endings, files, mappings, n - 1).endings;
        let table = noted_to(endings, files, mappings, n).endings;
        assert(!texts(n - 1) ==> get(table, file) == get(was, file));
        assert(texts(n - 1) ==> (decoded(files[n - 1].bytes) matches Some((_, line_endings)) && get(table, file)
            == Some(line_endings)));
    }
}

/// The documents that are text, in their order, are what the overlay shows: each under its path, with
/// the text of its bytes, and classified as it is. One that is no text is left out.
pub proof fn law_open_documents_are_shown(docs: Seq<DocumentView>, n: int)
    requires
        0 <= n <= docs.len(),
    ensures
        ({
            let shown = opened_to(docs, n);
            let list = docs.take(n).filter(|d: DocumentView| decoded(d.data) is Some);
            &&& shown.len() == list.len()
            &&& forall|k: int|
                0 <= k < list.len() ==> {
                    &&& shown[k].path == (#[trigger] list[k]).path
                    &&& Some((shown[k].text, shown[k].line_endings)) == decoded(list[k].data)
                    &&& shown[k].classified == list[k].classified
                }
        }),
    decreases n,
{
    reveal(Seq::filter);
    if n > 0 {
        law_open_documents_are_shown(docs, n - 1);
        assert(docs.take(n).drop_last() =~= docs.take(n - 1));
        let was = docs.take(n - 1).filter(|d: DocumentView| decoded(d.data) is Some);
        let list = docs.take(n).filter(|d: DocumentView| decoded(d.data) is Some);
        let shown = opened_to(docs, n);
        assert forall|k: int| 0 <= k < list.len() implies {
            &&& shown[k].path == (#[trigger] list[k]).path
            &&& Some((shown[k].text, shown[k].line_endings)) == decoded(list[k].data)
            &&& shown[k].classified == list[k].classified
        } by {
            if k < was.len() {
                assert(was[k] == list[k]);
            }
        }
    }
}

/// The files to be looked at anew are those of the open documents that are Rust sources on disk and
/// have a number, each in its place and under its number.
pub proof fn law_open_sources_are_looked_at(docs: Seq<(PathView, bool)>, mappings: SharedFileMappings, n: int)
    requires
        0 <= n <= docs.len(),
    ensures
        ({
            let numbers = rust_files_to(docs, mappings, n);
            let list = docs.take(n).filter(
                |d: (PathView, bool)| d.1 && is_rust(d.0.text) && mappings.lookup(d.0.key) is Some,
            );
            &&& numbers.len() == list.len()
            &&& forall|k: int| 0 <= k < list.len() ==> mappings.lookup((#[trigger] list[k]).0.key) == Some(numbers[k])
        }),
    decreases n,
{
    reveal(Seq::filter);
    if n > 0 {
        law_open_sources_are_looked_at(docs, mappings, n - 1);
        assert(docs.take(n).drop_last() =~= docs.take(n - 1));
        let wanted = |d: (PathView, bool)| d.1 && is_rust(d.0.text) && mappings.lookup(d.0.key) is Some;
        let was = docs.take(n - 1).filter(wanted);
        let list = docs.take(n).filter(wanted);
        let numbers = rust_files_to(docs, mappings, n);
        assert forall|k: int| 0 <= k < list.len() implies mappings.lookup((#[trigger] list[k]).0.key) == Some(numbers[k]) by {
            if k < was.len() {
                assert(was[k] == list[k]);
            }
        }
    }
}

} // verus!
