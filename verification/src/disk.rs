//! Changes to files on disk.
//!
//! A list of changes is first noted in the workspaces that have or cover the files. The source
//! roots of those workspaces are worked out outside, and then put into the world with the texts.
//! Last, where the database has changed, all overlays are made anew.
use crate::base::{contains_index, BaseView, LoadedView, LoadedWorkspace};
use crate::file_ids::{SharedFileIds, MAX_ANALYZED_FILE_ID};
use crate::files::LoadedWorkspaceFiles;
use crate::ordered::OrderedMap;
use crate::paths::{common_path, common_path_prefix_len, FilePath, LineEndings, PathView};
use crate::shared::{unshare, Replica};
use crate::world::{all_applied, SharedWorld, WorldView};
use std::sync::Arc;
use vstd::prelude::*;
use vstd::utf8::encode_utf8;

verus! {

/// A file that was written, made or deleted. `classified` tells for each workspace of the world
/// whether its configuration covers the path.
#[derive(Debug)]
pub struct SharedBaseFileChange {
    pub path: FilePath,
    pub exists: bool,
    pub text: Option<String>,
    pub line_endings: Option<LineEndings>,
    pub classified: Vec<bool>,
}

#[verifier::ext_equal]
pub struct FileChangeView {
    pub path: PathView,
    pub exists: bool,
    pub text: Option<Seq<char>>,
    pub line_endings: Option<LineEndings>,
    pub classified: Seq<bool>,
}

impl View for SharedBaseFileChange {
    type V = FileChangeView;

    open spec fn view(&self) -> FileChangeView {
        FileChangeView {
            path: self.path@,
            exists: self.exists,
            text: self.text.deep_view(),
            line_endings: self.line_endings,
            classified: self.classified@,
        }
    }
}

pub open spec fn change_views(files: Seq<SharedBaseFileChange>) -> Seq<FileChangeView> {
    files.map_values(|f: SharedBaseFileChange| f@)
}

/// The file of a path in the first workspace that has the path.
pub open spec fn first_file(ws: Seq<LoadedView>, key: Seq<char>) -> Option<u32>
    decreases ws.len(),
{
    if ws.len() == 0 {
        None
    } else if ws[0].files.file_id(key) is Some {
        ws[0].files.file_id(key)
    } else {
        first_file(ws.drop_first(), key)
    }
}

/// The workspace has the file or covers it, or is in view and has the file below its root.
pub open spec fn concerns(ws: Seq<LoadedView>, indexes: Seq<usize>, file: FileChangeView, i: int) -> bool {
    ||| ws[i].files.file_id(file.path.key) is Some
    ||| file.classified[i]
    ||| indexes.contains(i as usize) && common_path(encode_utf8(file.path.key), encode_utf8(ws[i].root_key)) == encode_utf8(
        ws[i].root_key,
    ).len()
}

pub open spec fn concerns_any(ws: Seq<LoadedView>, indexes: Seq<usize>, file: FileChangeView) -> bool {
    exists|i: int| 0 <= i < ws.len() && #[trigger] concerns(ws, indexes, file, i)
}

/// What is known after some of the changes: the world, the next file number, the texts, whether
/// line endings have changed, and the workspaces that are concerned.
#[verifier::ext_equal]
pub struct NotedView {
    pub world: WorldView,
    pub next: u32,
    pub texts: Seq<(u32, Option<Seq<char>>)>,
    pub endings_changed: bool,
    pub affected: Seq<usize>,
}

/// The number of a file that is concerned: the one that a workspace has for it, or the one given
/// to its path, or the next that is free.
pub open spec fn number_for(w: WorldView, next: u32, key: Seq<char>) -> u32 {
    match first_file(w.base.workspaces, key) {
        Some(f) => f,
        None => if w.file_ids.contains_key(key) {
            w.file_ids[key]
        } else {
            next
        },
    }
}

pub open spec fn needs_number(w: WorldView, key: Seq<char>) -> bool {
    first_file(w.base.workspaces, key) is None && !w.file_ids.contains_key(key)
}

/// A workspace once a change is noted in it.
pub open spec fn touched(lw: LoadedView, number: u32, file: FileChangeView) -> LoadedView {
    LoadedView {
        files: if lw.files.contains_file(number) {
            lw.files.marked(number, file.exists)
        } else {
            lw.files.inserted(number, file.path, file.exists)
        },
        files_version: lw.files_version.wrapping_add(1),
        line_endings: match file.line_endings {
            Some(endings) => lw.line_endings.insert(number, endings),
            None => lw.line_endings,
        },
        ..lw
    }
}

pub open spec fn endings_differ(lw: LoadedView, number: u32, file: FileChangeView) -> bool {
    file.line_endings matches Some(endings) && !(lw.line_endings.contains_key(number) && lw.line_endings[number] == endings)
}

/// The workspaces once a change is noted in those of the first `n` that are concerned.
pub open spec fn touched_to(ws: Seq<LoadedView>, indexes: Seq<usize>, number: u32, file: FileChangeView, n: int) -> Seq<LoadedView> {
    Seq::new(
        ws.len(),
        |i: int|
            if i < n && concerns(ws, indexes, file, i) {
                touched(ws[i], number, file)
            } else {
                ws[i]
            },
    )
}

pub open spec fn endings_differ_to(ws: Seq<LoadedView>, indexes: Seq<usize>, number: u32, file: FileChangeView, n: int) -> bool {
    exists|i: int| 0 <= i < n && #[trigger] concerns(ws, indexes, file, i) && endings_differ(ws[i], number, file)
}

pub open spec fn push_new(list: Seq<usize>, i: usize) -> Seq<usize> {
    if list.contains(i) {
        list
    } else {
        list.push(i)
    }
}

/// The concerned workspaces, with those of the first `n` that the file concerns.
pub open spec fn affected_to(list: Seq<usize>, ws: Seq<LoadedView>, indexes: Seq<usize>, file: FileChangeView, n: int) -> Seq<usize>
    decreases n,
{
    if n <= 0 {
        list
    } else {
        let before = affected_to(list, ws, indexes, file, n - 1);
        if concerns(ws, indexes, file, n - 1) {
            push_new(before, (n - 1) as usize)
        } else {
            before
        }
    }
}

/// What is known after one change more. A change that concerns no workspace is dropped.
pub open spec fn noted_one(s: NotedView, indexes: Seq<usize>, file: FileChangeView) -> NotedView {
    let w = s.world;
    let ws = w.base.workspaces;
    if !concerns_any(ws, indexes, file) {
        s
    } else {
        let number = number_for(w, s.next, file.path.key);
        let fresh = needs_number(w, file.path.key);
        NotedView {
            world: WorldView {
                base: BaseView { workspaces: touched_to(ws, indexes, number, file, ws.len() as int), ..w.base },
                file_ids: if fresh {
                    w.file_ids.insert(file.path.key, number)
                } else {
                    w.file_ids
                },
                ..w
            },
            next: if fresh {
                (s.next + 1) as u32
            } else {
                s.next
            },
            texts: s.texts.push((number, file.text)),
            endings_changed: s.endings_changed || endings_differ_to(ws, indexes, number, file, ws.len() as int),
            affected: affected_to(s.affected, ws, indexes, file, ws.len() as int),
        }
    }
}

/// What is known after the first `n` changes.
pub open spec fn noted_to(w: WorldView, next: u32, indexes: Seq<usize>, files: Seq<FileChangeView>, n: int) -> NotedView
    decreases n,
{
    if n <= 0 {
        NotedView { world: w, next, texts: Seq::empty(), endings_changed: false, affected: Seq::empty() }
    } else {
        noted_one(noted_to(w, next, indexes, files, n - 1), indexes, files[n - 1])
    }
}

/// There is a number for the file of the change, where it needs one.
pub open spec fn change_fits(s: NotedView, indexes: Seq<usize>, file: FileChangeView) -> bool {
    concerns_any(s.world.base.workspaces, indexes, file) && needs_number(s.world, file.path.key) ==> s.next <= MAX_ANALYZED_FILE_ID
}

/// There are numbers for the files of all changes.
pub open spec fn all_changes_fit(w: WorldView, next: u32, indexes: Seq<usize>, files: Seq<FileChangeView>) -> bool {
    forall|n: int| 0 <= n < files.len() ==> change_fits(#[trigger] noted_to(w, next, indexes, files, n), indexes, files[n])
}

/// The numbers run out at some change: what is known is what the changes before it come to.
pub open spec fn stopped_at(w: WorldView, next: u32, indexes: Seq<usize>, files: Seq<FileChangeView>, s: NotedView) -> bool {
    exists|n: int|
        0 <= n < files.len() && s == #[trigger] noted_to(w, next, indexes, files, n) && !change_fits(s, indexes, files[n])
}

pub open spec fn mentions(changes: Seq<(u32, Option<Seq<char>>)>, f: u32) -> bool {
    exists|i: int| 0 <= i < changes.len() && (#[trigger] changes[i]).0 == f
}

impl NotedView {
    /// Everything is sound but for files that the database does not know yet: they have a new text
    /// and are in a workspace that is concerned. No text is one of an overlay file.
    pub open spec fn wf(self) -> bool {
        &&& self.world.sound_roots(self.next)
        &&& all_applied(self.world)
        &&& forall|i: int, f: u32|
            0 <= i < self.world.base.workspaces.len() && #[trigger] self.world.base.workspaces[i].files.file_exists(f)
                ==> self.world.base.has_file(f) || (self.affected.contains(i as usize) && mentions(self.texts, f))
        &&& forall|t: int, s: u64|
            0 <= t < self.texts.len() && #[trigger] self.world.overlays.contains_key(s)
                ==> !self.world.overlays[s].path_by_file.contains_key((#[trigger] self.texts[t]).0)
        &&& forall|t: int| 0 <= t < self.texts.len() ==> (#[trigger] self.texts[t]).0 < self.next
        &&& forall|j: int| 0 <= j < self.affected.len() ==> (#[trigger] self.affected[j]) < self.world.base.workspaces.len()
        &&& self.world.base.workspaces.len() <= usize::MAX
    }
}

proof fn lemma_first_file(ws: Seq<LoadedView>, key: Seq<char>)
    ensures
        first_file(ws, key) matches Some(f) ==> exists|i: int|
            0 <= i < ws.len() && #[trigger] ws[i].files.file_id(key) == Some(f),
    decreases ws.len(),
{
    if ws.len() > 0 {
        if ws[0].files.file_id(key) is None {
            lemma_first_file(ws.drop_first(), key);
            match first_file(ws, key) {
                Some(f) => {
                    let i = choose|i: int|
                        0 <= i < ws.drop_first().len() && #[trigger] ws.drop_first()[i].files.file_id(key) == Some(f);
                    assert(ws[i + 1].files.file_id(key) == Some(f));
                },
                None => {},
            }
        } else {
            assert(ws[0].files.file_id(key) == first_file(ws, key));
        }
    }
}

proof fn lemma_affected_to(list: Seq<usize>, ws: Seq<LoadedView>, indexes: Seq<usize>, file: FileChangeView, n: int)
    requires
        0 <= n <= ws.len() <= usize::MAX,
        forall|j: int| 0 <= j < list.len() ==> (#[trigger] list[j]) < ws.len(),
    ensures
        forall|i: usize| list.contains(i) ==> #[trigger] affected_to(list, ws, indexes, file, n).contains(i),
        forall|i: int|
            0 <= i < n && #[trigger] concerns(ws, indexes, file, i) ==> affected_to(list, ws, indexes, file, n).contains(i as usize),
        forall|j: int|
            0 <= j < affected_to(list, ws, indexes, file, n).len() ==> (#[trigger] affected_to(list, ws, indexes, file, n)[j])
                < ws.len(),
    decreases n,
{
    if n > 0 {
        lemma_affected_to(list, ws, indexes, file, n - 1);
        let before = affected_to(list, ws, indexes, file, n - 1);
        let r = affected_to(list, ws, indexes, file, n);
        assert forall|i: usize| before.contains(i) implies #[trigger] r.contains(i) by {
            let j = before.index_of(i);
            assert(r[j] == i);
        }
        assert forall|i: usize| list.contains(i) implies #[trigger] r.contains(i) by {
            assert(before.contains(i));
        }
        assert forall|i: int| 0 <= i < n && #[trigger] concerns(ws, indexes, file, i) implies r.contains(i as usize) by {
            if i < n - 1 {
                assert(before.contains(i as usize));
            } else if !before.contains((n - 1) as usize) {
                assert(r[r.len() - 1] == (n - 1) as usize);
            }
        }
        assert forall|j: int| 0 <= j < r.len() implies (#[trigger] r[j]) < ws.len() by {
            if j < before.len() {
                assert(r[j] == before[j]);
            }
        }
    }
}

/// The number of a file that is concerned is no overlay file's.
proof fn lemma_number_for(s: NotedView, key: Seq<char>)
    requires
        s.wf(),
    ensures
        ({
            let number = number_for(s.world, s.next, key);
            &&& needs_number(s.world, key) ==> number == s.next
            &&& !needs_number(s.world, key) ==> number < s.next
            &&& forall|t: u64| #[trigger] s.world.overlays.contains_key(t) ==> !s.world.overlays[t].path_by_file.contains_key(number)
        }),
{
    let w = s.world;
    let number = number_for(w, s.next, key);
    lemma_first_file(w.base.workspaces, key);
    match first_file(w.base.workspaces, key) {
        Some(f) => {
            let i = choose|i: int|
                0 <= i < w.base.workspaces.len() && #[trigger] w.base.workspaces[i].files.file_id(key) == Some(f);
            assert(w.base.workspaces[i].files.wf());
            assert(w.base.workspaces[i].files.by_path.contains_key(key));
            assert(w.base.workspaces[i].files.contains_file(f));
        },
        None => {
            if !w.file_ids.contains_key(key) {
                assert forall|t: u64| #[trigger] w.overlays.contains_key(t) implies !w.overlays[t].path_by_file.contains_key(number) by {
                    assert(crate::overlay_build::numbers_below(w.overlays[t], s.next));
                }
            }
        },
    }
}

/// The number of a file that is concerned is the one given to its path, also where a workspace has
/// the file already.
pub proof fn lemma_number_given(s: NotedView, indexes: Seq<usize>, file: FileChangeView)
    requires
        s.wf(),
        concerns_any(s.world.base.workspaces, indexes, file),
    ensures
        ({
            let r = noted_one(s, indexes, file);
            &&& r.world.file_ids.contains_key(file.path.key)
            &&& r.world.file_ids[file.path.key] == number_for(s.world, s.next, file.path.key)
            &&& forall|k: Seq<char>|
                #[trigger] s.world.file_ids.contains_key(k) ==> r.world.file_ids.contains_key(k) && r.world.file_ids[k]
                    == s.world.file_ids[k]
        }),
{
    let w = s.world;
    let key = file.path.key;
    lemma_first_file(w.base.workspaces, key);
    match first_file(w.base.workspaces, key) {
        Some(f) => {
            let i = choose|i: int|
                0 <= i < w.base.workspaces.len() && #[trigger] w.base.workspaces[i].files.file_id(key) == Some(f);
            reveal(crate::world::paths_agree);
            assert(crate::world::workspace_agrees(w.file_ids, w.base.workspaces[i]));
            assert(w.base.workspaces[i].files.by_path.contains_key(key));
        },
        None => {},
    }
}

/// Paths keep their numbers when a change is noted.
proof fn lemma_touched_agree(s: NotedView, indexes: Seq<usize>, file: FileChangeView)
    requires
        s.wf(),
        concerns_any(s.world.base.workspaces, indexes, file),
        crate::file_ids::distinct_below(
            noted_one(s, indexes, file).world.file_ids,
            noted_one(s, indexes, file).next,
        ),
    ensures
        crate::world::paths_agree(
            noted_one(s, indexes, file).world.file_ids,
            noted_one(s, indexes, file).world.base.workspaces,
        ),
{
    let w = s.world;
    let ws = w.base.workspaces;
    let key = file.path.key;
    let r = noted_one(s, indexes, file);
    let ids = r.world.file_ids;
    let number = number_for(w, s.next, key);
    lemma_number_given(s, indexes, file);
    reveal(crate::world::paths_agree);
    assert forall|i: int| 0 <= i < ws.len() implies crate::world::workspace_agrees(ids, #[trigger] r.world.base.workspaces[i]) by {
        assert(crate::world::workspace_agrees(w.file_ids, ws[i]));
        let files = ws[i].files;
        let new = r.world.base.workspaces[i].files;
        assert(crate::world::files_agree(ids, files)) by {
            assert forall|k: Seq<char>| #[trigger] files.by_path.contains_key(k) implies ids.contains_key(k) && ids[k] == files.by_path[k] by {
                assert(w.file_ids.contains_key(k));
            }
        }
        if concerns(ws, indexes, file, i) {
            if files.contains_file(number) {
                crate::world::lemma_path_of_number(ids, r.next, files, key);
            } else {
                assert forall|f: u32| #[trigger] new.by_id.contains_key(f) implies new.by_path.contains_key(
                    new.by_id[f].path.key,
                ) && new.by_path[new.by_id[f].path.key] == f by {
                    if f != number {
                        assert(files.by_id.contains_key(f));
                        let k = files.by_id[f].path.key;
                        assert(files.by_path.contains_key(k) && files.by_path[k] == f);
                        assert(ids[k] == f);
                    }
                }
            }
        }
        let roots = r.world.base.workspaces[i].source_roots;
        assert forall|q: int, f: u32| 0 <= q < roots.len() && #[trigger] roots[q].files.contains_key(f) implies ids.contains_key(
            roots[q].files[f].key,
        ) && ids[roots[q].files[f].key] == f by {
            assert(ws[i].source_roots[q].files.contains_key(f));
            assert(w.file_ids.contains_key(roots[q].files[f].key));
        }
    }
}

/// Noting a change keeps everything sound.
pub proof fn lemma_noted_one(s: NotedView, indexes: Seq<usize>, file: FileChangeView)
    requires
        s.wf(),
        change_fits(s, indexes, file),
    ensures
        noted_one(s, indexes, file).wf(),
{
    let w = s.world;
    let ws = w.base.workspaces;
    if concerns_any(ws, indexes, file) {
        let key = file.path.key;
        let number = number_for(w, s.next, key);
        let r = noted_one(s, indexes, file);
        lemma_number_for(s, key);
        lemma_affected_to(s.affected, ws, indexes, file, ws.len() as int);
        assert(r.texts[s.texts.len() as int].0 == number);
        assert forall|f: u32| mentions(s.texts, f) || f == number implies #[trigger] mentions(r.texts, f) by {
            if f == number {
                assert(r.texts[s.texts.len() as int].0 == f);
            } else {
                let i = choose|i: int| 0 <= i < s.texts.len() && (#[trigger] s.texts[i]).0 == f;
                assert(r.texts[i].0 == f);
            }
        }
        assert forall|i: int, f: u32|
            0 <= i < ws.len() && #[trigger] r.world.base.workspaces[i].files.contains_file(f) implies ws[i].files.contains_file(f) || f
            == number by {}
        assert(crate::world::disk_numbers_apart(r.world, r.next)) by {
            assert forall|i: int| 0 <= i < ws.len() implies (#[trigger] r.world.base.workspaces[i]).files.wf() by {
                assert(ws[i].files.wf());
                let files = r.world.base.workspaces[i].files;
                assert forall|k: Seq<char>| #[trigger] files.by_path.contains_key(k) implies files.by_id.contains_key(files.by_path[k]) by {
                    if ws[i].files.by_path.contains_key(k) {
                        assert(ws[i].files.by_id.contains_key(ws[i].files.by_path[k]));
                    }
                }
            }
            assert forall|i: int, f: u32|
                0 <= i < ws.len() && #[trigger] r.world.base.workspaces[i].files.contains_file(f) implies f < r.next by {
                if f != number {
                    assert(ws[i].files.contains_file(f));
                }
            }
            assert forall|i: int, f: u32, t: u64|
                0 <= i < ws.len() && #[trigger] r.world.base.workspaces[i].files.contains_file(f) && r.world.overlays.contains_key(t) implies !#[trigger] r.world.overlays[t].path_by_file.contains_key(
                f,
            ) by {
                if f != number {
                    assert(ws[i].files.contains_file(f));
                    assert(!w.overlays[t].path_by_file.contains_key(f));
                }
            }
        }
        assert(crate::world::file_ids_sound(r.world, r.next)) by {
            let (m, n) = (w.file_ids, r.world.file_ids);
            assert forall|k: Seq<char>| #[trigger] n.contains_key(k) implies n[k] < r.next by {
                if m.contains_key(k) {
                    assert(m[k] < s.next);
                }
            }
            assert forall|j: Seq<char>, k: Seq<char>|
                #[trigger] n.contains_key(j) && #[trigger] n.contains_key(k) && n[j] == n[k] implies j == k by {
                if j != key {
                    assert(m.contains_key(j));
                }
                if k != key {
                    assert(m.contains_key(k));
                }
            }
            assert forall|k: Seq<char>, t: u64| #[trigger] n.contains_key(k) && #[trigger] r.world.overlays.contains_key(t) implies !r.world.overlays[t].path_by_file.contains_key(
                n[k],
            ) by {
                if m.contains_key(k) && m[k] == n[k] {
                    assert(w.overlays.contains_key(t));
                }
            }
        }
        assert(crate::world::paths_agree(r.world.file_ids, r.world.base.workspaces)) by {
            lemma_touched_agree(s, indexes, file);
        }
        assert(r.world.base.roots_readable()) by {
            assert(r.world.base.inputs == w.base.inputs);
            assert forall|v: int, q: int, f: u32|
                0 <= v < r.world.base.workspaces.len() && 0 <= q < r.world.base.workspaces[v].source_roots.len()
                    && #[trigger] r.world.base.workspaces[v].source_roots[q].files.contains_key(f) implies r.world.base.has_file(f) by {
                assert(ws[v].source_roots[q].files.contains_key(f));
                assert(w.base.has_file(f));
            }
            assert forall|v: int, q: int|
                0 <= v < r.world.base.workspaces.len() && 0 <= q < r.world.base.workspaces[v].source_roots.len() implies (#[trigger] r.world.base.workspaces[v].source_roots[q]).files.dom().finite() by {
                assert(ws[v].source_roots[q].files.dom().finite());
            }
        }
        assert forall|f: u32| #[trigger] r.world.applied.contains(f) implies f < r.next by {}
        assert forall|t: u64| #[trigger] r.world.overlays.contains_key(t) implies crate::overlay_build::numbers_below(
            r.world.overlays[t],
            r.next,
        ) by {
            assert(crate::overlay_build::numbers_below(w.overlays[t], s.next));
        }
        assert(crate::world::roots_listed(r.world.file_ids, r.world.base.inputs.roots, r.next)) by {
            if w.file_ids.contains_key(key) {
                assert(r.world.file_ids == w.file_ids);
                crate::world::lemma_listed_later(w.file_ids, w.base.inputs.roots, s.next, r.next);
            } else {
                crate::world::lemma_listed_given(w.file_ids, w.base.inputs.roots, s.next, key);
            }
        }
        assert(r.world.sound_roots(r.next));
        assert forall|i: int, f: u32|
            0 <= i < r.world.base.workspaces.len() && #[trigger] r.world.base.workspaces[i].files.file_exists(f) implies r.world.base.has_file(f) || (
        r.affected.contains(i as usize) && mentions(r.texts, f)) by {
            if concerns(ws, indexes, file, i) && f == number {
                assert(r.affected.contains(i as usize));
            } else {
                assert(ws[i].files.file_exists(f));
                assert(w.base.has_file(f) || (s.affected.contains(i as usize) && mentions(s.texts, f)));
            }
        }
        assert forall|t: int, o: u64| 0 <= t < r.texts.len() && #[trigger] r.world.overlays.contains_key(o) implies !r.world.overlays[o].path_by_file.contains_key(
            (#[trigger] r.texts[t]).0,
        ) by {
            if t < s.texts.len() {
                assert(r.texts[t] == s.texts[t]);
            }
        }
        assert forall|t: int| 0 <= t < r.texts.len() implies (#[trigger] r.texts[t]).0 < r.next by {
            if t < s.texts.len() {
                assert(r.texts[t] == s.texts[t]);
            }
        }
    }
}

/// What has been noted so far, without the world itself.
#[derive(Debug)]
pub struct NotedChanges {
    pub texts: Vec<(u32, Option<String>)>,
    pub endings_changed: bool,
    pub affected: Vec<usize>,
}

pub open spec fn noted_view(w: SharedWorld, ids: SharedFileIds, noted: NotedChanges) -> NotedView {
    NotedView {
        world: w@,
        next: ids.next,
        texts: noted.texts.deep_view(),
        endings_changed: noted.endings_changed,
        affected: noted.affected@,
    }
}

/// Notes a change in a workspace, and tells whether line endings have changed.
fn touch(workspace: &mut LoadedWorkspace, number: u32, file: &SharedBaseFileChange) -> (r: bool)
    ensures
        final(workspace)@ == touched(old(workspace)@, number, file@),
        r == endings_differ(old(workspace)@, number, file@),
{
    let ghost before = workspace@;
    let mut files: Arc<LoadedWorkspaceFiles> = Arc::new(LoadedWorkspaceFiles::empty());
    std::mem::swap(&mut workspace.files, &mut files);
    let mut files = unshare(files);
    proof {
        assert(files@ == before.files);
    }
    if !files.contains_file(number) {
        files.insert(number, file.path.replica(), file.exists);
    } else {
        files.set_exists(number, file.exists);
    }
    workspace.files = Arc::new(files);
    workspace.files_version = workspace.files_version.wrapping_add(1);
    let mut changed = false;
    match file.line_endings {
        Some(endings) => {
            let mut all: Arc<OrderedMap<u32, LineEndings>> = Arc::new(OrderedMap::new());
            std::mem::swap(&mut workspace.line_endings, &mut all);
            let mut all = unshare(all);
            proof {
                assert(all@ == before.line_endings);
            }
            changed = match all.insert(number, endings) {
                Some(old_endings) => old_endings != endings,
                None => true,
            };
            workspace.line_endings = Arc::new(all);
        },
        None => {},
    }
    proof {
        assert(workspace@ =~= touched(before, number, file@));
    }
    changed
}

impl SharedWorld {
    /// The file of a path in the first workspace that has the path.
    fn first_file(&self, key: &String) -> (r: Option<u32>)
        ensures
            r == first_file(self@.base.workspaces, key@),
    {
        let ghost ws = self@.base.workspaces;
        let mut i: usize = 0;
        proof {
            assert(ws.skip(0) =~= ws);
        }
        while i < self.base.workspaces.len()
            invariant
                i <= self.base.workspaces.len(),
                ws == self@.base.workspaces,
                first_file(ws, key@) == first_file(ws.skip(i as int), key@),
            decreases self.base.workspaces.len() - i,
        {
            proof {
                assert(ws.skip(i as int).drop_first() =~= ws.skip(i + 1));
                assert(ws.skip(i as int)[0] == self.base.workspaces@[i as int]@);
            }
            let file = self.base.workspaces[i].files.file_id(key);
            if file.is_some() {
                return file;
            }
            i = i + 1;
        }
        None
    }

    /// The workspaces that a change concerns, ascending.
    fn concerned(&self, workspaces: &Vec<usize>, file: &SharedBaseFileChange) -> (r: Vec<usize>)
        requires
            file.classified.len() == self.base.workspaces.len(),
        ensures
            forall|i: int|
                0 <= i < self@.base.workspaces.len() ==> (#[trigger] concerns(self@.base.workspaces, workspaces@, file@, i)
                    <==> r@.contains(i as usize)),
            forall|j: int| 0 <= j < r@.len() ==> (#[trigger] r@[j]) < self@.base.workspaces.len(),
            forall|a: int, b: int| 0 <= a < b < r@.len() ==> r@[a] < r@[b],
    {
        let ghost ws = self@.base.workspaces;
        let mut r: Vec<usize> = Vec::new();
        let mut i: usize = 0;
        while i < self.base.workspaces.len()
            invariant
                i <= self.base.workspaces.len(),
                ws == self@.base.workspaces,
                file.classified.len() == self.base.workspaces.len(),
                forall|j: int| 0 <= j < i ==> (#[trigger] concerns(ws, workspaces@, file@, j) <==> r@.contains(j as usize)),
                forall|j: int| 0 <= j < r@.len() ==> (#[trigger] r@[j]) < i,
                forall|a: int, b: int| 0 <= a < b < r@.len() ==> r@[a] < r@[b],
            decreases self.base.workspaces.len() - i,
        {
            let workspace = &self.base.workspaces[i];
            let root = workspace.root_key.as_str();
            let in_view_root = contains_index(workspaces, i) && common_path_prefix_len(file.path.key.as_str(), root)
                == root.as_bytes().len();
            let ghost before = r@;
            let hit = workspace.files.file_id(&file.path.key).is_some() || file.classified[i] || in_view_root;
            proof {
                assert(ws[i as int] == workspace@);
                assert(hit == concerns(ws, workspaces@, file@, i as int));
            }
            if hit {
                r.push(i);
            }
            proof {
                assert forall|j: int| 0 <= j < i + 1 implies (#[trigger] concerns(ws, workspaces@, file@, j) <==> r@.contains(
                    j as usize,
                )) by {
                    if j < i {
                        if before.contains(j as usize) {
                            let x = before.index_of(j as usize);
                            assert(r@[x] == j as usize);
                        }
                        if r@.contains(j as usize) {
                            let x = r@.index_of(j as usize);
                            assert(before[x] == j as usize);
                        }
                    } else {
                        if hit {
                            assert(r@[before.len() as int] == i);
                        } else if r@.contains(i) {
                            let x = r@.index_of(i);
                            assert(r@[x] < i);
                        }
                    }
                }
            }
            i = i + 1;
        }
        r
    }
}

impl SharedWorld {
    /// Notes one change. Nothing is done where a file number is needed and none is left.
    fn note_one(
        &mut self,
        noted: &mut NotedChanges,
        workspaces: &Vec<usize>,
        file: &SharedBaseFileChange,
        ids: &mut SharedFileIds,
    ) -> (r: bool)
        requires
            noted_view(*old(self), *old(ids), *old(noted)).wf(),
            file.classified.len() == old(self).base.workspaces.len(),
        ensures
            r == change_fits(noted_view(*old(self), *old(ids), *old(noted)), workspaces@, file@),
            r ==> noted_view(*final(self), *final(ids), *final(noted)) == noted_one(
                noted_view(*old(self), *old(ids), *old(noted)),
                workspaces@,
                file@,
            ),
            !r ==> *final(self) == *old(self) && *final(ids) == *old(ids) && *final(noted) == *old(noted),
            noted_view(*final(self), *final(ids), *final(noted)).wf(),
            final(self).base.workspaces.len() == old(self).base.workspaces.len(),
    {
        let ghost s = noted_view(*self, *ids, *noted);
        let ghost w = self@;
        let ghost ws = self@.base.workspaces;
        let ghost v = file@;
        let concerned = self.concerned(workspaces, file);
        proof {
            assert(concerned@.len() == 0 ==> !concerns_any(ws, workspaces@, v)) by {
                if concerns_any(ws, workspaces@, v) {
                    let i = choose|i: int| 0 <= i < ws.len() && #[trigger] concerns(ws, workspaces@, v, i);
                    assert(concerned@.contains(i as usize));
                }
            }
            assert(concerned@.len() > 0 ==> concerns_any(ws, workspaces@, v)) by {
                if concerned@.len() > 0 {
                    assert(concerned@.contains(concerned@[0]));
                    assert(concerns(ws, workspaces@, v, concerned@[0] as int));
                }
            }
        }
        if concerned.len() == 0 {
            return true;
        }
        let known = match self.first_file(&file.path.key) {
            Some(number) => Some(number),
            None => match self.base_file_ids.ids.get(&file.path.key) {
                Some(number) => Some(*number),
                None => None,
            },
        };
        if known.is_none() && ids.next > MAX_ANALYZED_FILE_ID {
            return false;
        }
        proof {
            lemma_noted_one(s, workspaces@, v);
        }
        let number: u32 = match known {
            Some(number) => number,
            None => self.base_file_ids.resolve(&file.path.key, ids),
        };
        proof {
            assert(number == number_for(w, s.next, v.path.key));
        }
        let ghost middle = self@;
        let mut i: usize = 0;
        proof {
            assert(touched_to(ws, workspaces@, number, v, 0) =~= ws);
        }
        while i < self.base.workspaces.len()
            invariant
                i <= self.base.workspaces.len(),
                self.base.workspaces.len() == ws.len(),
                v == file@,
                forall|j: int|
                    0 <= j < ws.len() ==> (#[trigger] concerns(ws, workspaces@, v, j) <==> concerned@.contains(j as usize)),
                self@ == (WorldView {
                    base: BaseView { workspaces: touched_to(ws, workspaces@, number, v, i as int), ..middle.base },
                    ..middle
                }),
                noted.texts.deep_view() == s.texts,
                noted.endings_changed == (s.endings_changed || endings_differ_to(ws, workspaces@, number, v, i as int)),
                noted.affected@ == affected_to(s.affected, ws, workspaces@, v, i as int),
            decreases self.base.workspaces.len() - i,
        {
            let ghost here = self@.base.workspaces;
            let ghost was = noted.endings_changed;
            proof {
                assert(here[i as int] == ws[i as int]);
                assert(here[i as int] == self.base.workspaces@[i as int]@);
                assert(concerns(ws, workspaces@, v, i as int) <==> concerned@.contains(i));
            }
            if contains_index(&concerned, i) {
                let changed = touch(&mut self.base.workspaces[i], number, file);
                if changed {
                    noted.endings_changed = true;
                }
                if !contains_index(&noted.affected, i) {
                    noted.affected.push(i);
                }
                proof {
                    assert(self@.base.workspaces =~= here.update(i as int, touched(ws[i as int], number, v)));
                    assert(changed == endings_differ(ws[i as int], number, v));
                }
            }
            proof {
                assert(self@.base.workspaces =~= touched_to(ws, workspaces@, number, v, i + 1));
                assert(endings_differ_to(ws, workspaces@, number, v, i + 1) == (endings_differ_to(ws, workspaces@, number, v, i as int)
                    || (concerns(ws, workspaces@, v, i as int) && endings_differ(ws[i as int], number, v)))) by {
                    if endings_differ_to(ws, workspaces@, number, v, i as int) {
                        let j = choose|j: int|
                            0 <= j < i && #[trigger] concerns(ws, workspaces@, v, j) && endings_differ(ws[j], number, v);
                        assert(concerns(ws, workspaces@, v, j) && endings_differ(ws[j], number, v));
                    }
                }
            }
            i = i + 1;
        }
        let text = match &file.text {
            Some(text) => Some(text.clone()),
            None => None,
        };
        noted.texts.push((number, text));
        proof {
            assert(noted.texts.deep_view() =~= s.texts.push((number, v.text)));
            assert(noted_view(*self, *ids, *noted) =~= noted_one(s, workspaces@, v));
        }
        true
    }

    /// Notes changes to files on disk in the workspaces that have or cover the files. Where the
    /// file numbers run out, it fails with the changes that were noted before.
    pub fn note_file_changes(
        &mut self,
        workspaces: &Vec<usize>,
        files: &Vec<SharedBaseFileChange>,
        ids: &mut SharedFileIds,
    ) -> (r: Result<NotedChanges, NotedChanges>)
        requires
            old(self)@.wf(old(ids).next),
            forall|i: int| 0 <= i < files@.len() ==> (#[trigger] files@[i]).classified.len() == old(self).base.workspaces.len(),
        ensures
            r is Ok <==> all_changes_fit(old(self)@, old(ids).next, workspaces@, change_views(files@)),
            r matches Ok(noted) ==> noted_view(*final(self), *final(ids), noted) == noted_to(
                old(self)@,
                old(ids).next,
                workspaces@,
                change_views(files@),
                files@.len() as int,
            ),
            r matches Ok(noted) ==> noted_view(*final(self), *final(ids), noted).wf(),
            r matches Err(noted) ==> noted_view(*final(self), *final(ids), noted).wf() && stopped_at(
                old(self)@,
                old(ids).next,
                workspaces@,
                change_views(files@),
                noted_view(*final(self), *final(ids), noted),
            ),
    {
        let ghost w = self@;
        let ghost start = ids.next;
        let ghost views = change_views(files@);
        let mut noted = NotedChanges { texts: Vec::new(), endings_changed: false, affected: Vec::new() };
        let mut i: usize = 0;
        proof {
            assert(noted.texts.deep_view() =~= Seq::empty());
            assert(noted_view(*self, *ids, noted) =~= noted_to(w, start, workspaces@, views, 0));
            let s = noted_view(*self, *ids, noted);
            assert(s.world.base.workspaces.len() == self.base.workspaces.len());
            assert(s.world == w);
            assert(s.texts.len() == 0);
            assert forall|k: int, f: u32| 0 <= k < w.base.workspaces.len() && #[trigger] w.base.workspaces[k].files.file_exists(f) implies w.base.has_file(f) by {}
            assert(s.wf());
        }
        while i < files.len()
            invariant
                i <= files.len(),
                w == old(self)@,
                start == old(ids).next,
                views == change_views(files@),
                forall|j: int| 0 <= j < files@.len() ==> (#[trigger] files@[j]).classified.len() == self.base.workspaces.len(),
                noted_view(*self, *ids, noted) == noted_to(w, start, workspaces@, views, i as int),
                noted_view(*self, *ids, noted).wf(),
                forall|j: int|
                    0 <= j < i ==> change_fits(#[trigger] noted_to(w, start, workspaces@, views, j), workspaces@, views[j]),
            decreases files.len() - i,
        {
            proof {
                assert(views[i as int] == files@[i as int]@);
            }
            if !self.note_one(&mut noted, workspaces, &files[i], ids) {
                proof {
                    assert(!change_fits(noted_to(w, start, workspaces@, views, i as int), workspaces@, views[i as int]));
                }
                return Err(noted);
            }
            i = i + 1;
        }
        Ok(noted)
    }
}

} // verus!
