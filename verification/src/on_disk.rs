//! What becomes of files that changed on disk, as every session finds them.
use crate::base::{base_file, base_file_exists, base_line_endings, existing_file, LoadedView};
use crate::disk::{
    all_changes_fit, concerns, concerns_any, lemma_number_given, noted_one, noted_to, number_for, FileChangeView, NotedView,
};
use crate::disk_roots::{rerooted_to, same_roots, NewRootsView};
use crate::inputs::{assigned, moved, root_changed, InputsView, RootView};
use crate::paths::common_path;
use crate::saving::{lemma_noted_wf, lemma_rerooted_files, saved};
use crate::world::WorldView;
use vstd::prelude::*;
use vstd::utf8::encode_utf8;

verus! {

/// The workspace has the path, or its configuration covers it, or it is in view and the path lies below
/// its root.
spec fn is_about(ws: Seq<LoadedView>, indexes: Seq<usize>, file: FileChangeView, i: int) -> bool {
    let root = encode_utf8(ws[i].root_key);
    ||| ws[i].files.by_path.contains_key(file.path.key)
    ||| file.classified[i]
    ||| indexes.contains(i as usize) && common_path(encode_utf8(file.path.key), root) == root.len()
}

proof fn lemma_concerns(ws: Seq<LoadedView>, indexes: Seq<usize>, file: FileChangeView, i: int)
    ensures
        concerns(ws, indexes, file, i) == is_about(ws, indexes, file, i),
{
}

proof fn lemma_affected(list: Seq<usize>, ws: Seq<LoadedView>, indexes: Seq<usize>, file: FileChangeView, n: int, i: usize)
    requires
        0 <= n <= ws.len() <= usize::MAX,
    ensures
        crate::disk::affected_to(list, ws, indexes, file, n).contains(i) <==> list.contains(i) || i < n && concerns(
            ws,
            indexes,
            file,
            i as int,
        ),
    decreases n,
{
    if n > 0 {
        lemma_affected(list, ws, indexes, file, n - 1, i);
        let before = crate::disk::affected_to(list, ws, indexes, file, n - 1);
        let last = (n - 1) as usize;
        let t = before.push(last);
        if before.contains(i) {
            let j = before.index_of(i);
            assert(t[j] == i);
        }
        if i == last {
            assert(t[before.len() as int] == i);
        }
        if t.contains(i) {
            let j = t.index_of(i);
            if j < before.len() {
                assert(before[j] == i);
            }
        }
    }
}

/// A change on disk is noted in every workspace that has the path, or covers it, or is in view with the
/// path below its root, and in no other. There the file has the number of its path from then on, exists
/// exactly if the change says so, and has the line endings that came with the change. All other files
/// of the workspace stay as they were, and its source roots are to be worked out anew.
pub proof fn law_change_is_noted_where_it_belongs(s: NotedView, indexes: Seq<usize>, file: FileChangeView, i: int)
    requires
        s.wf(),
        crate::disk::change_fits(s, indexes, file),
        0 <= i < s.world.base.workspaces.len(),
    ensures
        ({
            let r = noted_one(s, indexes, file);
            let was = s.world.base.workspaces[i];
            let now = r.world.base.workspaces[i];
            let number = r.world.file_ids[file.path.key];
            let root = encode_utf8(was.root_key);
            let about = was.files.by_path.contains_key(file.path.key) || file.classified[i] || (indexes.contains(i as usize)
                && common_path(encode_utf8(file.path.key), root) == root.len());
            &&& r.world.base.workspaces.len() == s.world.base.workspaces.len()
            &&& !about ==> now == was
            &&& about ==> {
                &&& r.world.file_ids.contains_key(file.path.key)
                &&& now.files.by_id.contains_key(number) && now.files.by_id[number].exists == file.exists
                &&& now.files.by_path.contains_key(file.path.key) && now.files.by_path[file.path.key] == number
                &&& file.line_endings matches Some(endings) ==> now.line_endings.contains_key(number)
                    && now.line_endings[number] == endings
                &&& file.line_endings is None ==> now.line_endings == was.line_endings
                &&& now.files_version == was.files_version.wrapping_add(1)
                &&& r.affected.contains(i as usize)
                &&& r.texts == s.texts.push((number, file.text))
            }
            &&& forall|f: u32|
                f != number ==> #[trigger] now.files.by_id.contains_key(f) == was.files.by_id.contains_key(f)
                    && now.files.by_id[f] == was.files.by_id[f]
            &&& forall|f: u32|
                f != number ==> #[trigger] now.line_endings.contains_key(f) == was.line_endings.contains_key(f)
                    && now.line_endings[f] == was.line_endings[f]
            &&& now.source_roots == was.source_roots && now.project == was.project && now.client == was.client
        }),
{
    let ws = s.world.base.workspaces;
    let r = noted_one(s, indexes, file);
    let key = file.path.key;
    lemma_concerns(ws, indexes, file, i);
    if concerns(ws, indexes, file, i) {
        assert(concerns_any(ws, indexes, file));
        lemma_number_given(s, indexes, file);
        lemma_affected(s.affected, ws, indexes, file, ws.len() as int, i as usize);
        let number = number_for(s.world, s.next, key);
        crate::disk::lemma_noted_one(s, indexes, file);
        assert(ws[i].files.wf());
        reveal(crate::world::paths_agree);
        assert(crate::world::workspace_agrees(r.world.file_ids, r.world.base.workspaces[i]));
        assert(r.world.base.workspaces[i].files.by_path.contains_key(key)) by {
            let files = ws[i].files;
            if files.contains_file(number) {
                let path = files.by_id[number].path;
                assert(crate::world::workspace_agrees(s.world.file_ids, ws[i]));
                assert(files.by_path.contains_key(path.key) && files.by_path[path.key] == number);
                assert(s.world.file_ids.contains_key(path.key) && s.world.file_ids[path.key] == number);
                assert(r.world.file_ids.contains_key(path.key) && r.world.file_ids[path.key] == number);
                assert(r.world.file_ids.contains_key(key) && r.world.file_ids[key] == number);
                assert(path.key == key);
            }
        }
    } else if concerns_any(ws, indexes, file) {
        lemma_number_given(s, indexes, file);
    }
}

/// Whatever workspace has the path says of it whether it exists.
spec fn all_say(ws: Seq<LoadedView>, key: Seq<char>, exists: bool) -> bool {
    forall|i: int|
        0 <= i < ws.len() && #[trigger] ws[i].files.by_path.contains_key(key) ==> ws[i].files.file_exists(ws[i].files.by_path[key])
            == exists
}

proof fn lemma_all_say(w: WorldView, next: u32, indexes: Seq<usize>, files: Seq<FileChangeView>, at: int, n: int)
    requires
        w.wf(next),
        w.base.workspaces.len() <= usize::MAX,
        all_changes_fit(w, next, indexes, files),
        0 <= at < n <= files.len(),
        forall|j: int| at < j < files.len() ==> (#[trigger] files[j]).path.key != files[at].path.key,
    ensures
        all_say(noted_to(w, next, indexes, files, n).world.base.workspaces, files[at].path.key, files[at].exists),
    decreases n,
{
    let key = files[at].path.key;
    let before = noted_to(w, next, indexes, files, n - 1);
    let r = noted_to(w, next, indexes, files, n);
    let ws = before.world.base.workspaces;
    let now = r.world.base.workspaces;
    lemma_noted_wf(w, next, indexes, files, n - 1);
    lemma_noted_wf(w, next, indexes, files, n);
    assert(crate::disk::change_fits(before, indexes, files[n - 1]));
    if n - 1 > at {
        lemma_all_say(w, next, indexes, files, at, n - 1);
        assert(files[n - 1].path.key != key);
    }
    assert forall|i: int| 0 <= i < now.len() && #[trigger] now[i].files.by_path.contains_key(key) implies now[i].files.file_exists(
        now[i].files.by_path[key],
    ) == files[at].exists by {
        law_change_is_noted_where_it_belongs(before, indexes, files[n - 1], i);
        if n - 1 > at {
            assert(ws[i].files.by_path.contains_key(key) && ws[i].files.by_path[key] == now[i].files.by_path[key]);
            let f = now[i].files.by_path[key];
            if concerns_any(ws, indexes, files[n - 1]) {
                reveal(crate::world::paths_agree);
                assert(crate::world::workspace_agrees(r.world.file_ids, now[i]));
                lemma_number_given(before, indexes, files[n - 1]);
                let other = r.world.file_ids[files[n - 1].path.key];
                assert(r.world.file_ids.contains_key(key) && r.world.file_ids[key] == f);
                assert(f != other);
                assert(now[i].files.by_id.contains_key(f) == ws[i].files.by_id.contains_key(f));
            }
        }
    }
}

/// After a list of changes on disk every workspace that has a path says of its file what the last
/// change of the path says: that it exists, or, where it was deleted, that it does not.
pub proof fn law_last_change_decides_what_exists(
    w: WorldView,
    next: u32,
    indexes: Seq<usize>,
    files: Seq<FileChangeView>,
    list: Seq<NewRootsView>,
    at: int,
    i: int,
)
    requires
        w.wf(next),
        w.base.workspaces.len() <= usize::MAX,
        all_changes_fit(w, next, indexes, files),
        forall|e: int| 0 <= e < list.len() ==> (#[trigger] list[e]).workspace < w.base.workspaces.len(),
        0 <= at < files.len(),
        forall|j: int| at < j < files.len() ==> (#[trigger] files[j]).path.key != files[at].path.key,
        0 <= i < w.base.workspaces.len(),
    ensures
        ({
            let now = saved(w, next, indexes, files, list).base.workspaces[i].files;
            let key = files[at].path.key;
            now.by_path.contains_key(key) ==> now.by_id.contains_key(now.by_path[key]) && now.by_id[now.by_path[key]].exists
                == files[at].exists
        }),
{
    let n = files.len() as int;
    let s = noted_to(w, next, indexes, files, n);
    lemma_all_say(w, next, indexes, files, at, n);
    lemma_noted_len(w, next, indexes, files, n);
    lemma_rerooted_files(s.world.base.workspaces, list, list.len() as int);
    lemma_noted_wf(w, next, indexes, files, n);
    let now = s.world.base.workspaces[i].files;
    if now.by_path.contains_key(files[at].path.key) {
        assert(s.world.base.workspaces[i].files.by_path.contains_key(files[at].path.key));
        assert(s.world.base.workspaces[i].files.wf());
    }
}

proof fn lemma_noted_len(w: WorldView, next: u32, indexes: Seq<usize>, files: Seq<FileChangeView>, n: int)
    requires
        0 <= n <= files.len(),
    ensures
        noted_to(w, next, indexes, files, n).world.base.workspaces.len() == w.base.workspaces.len(),
    decreases n,
{
    if n > 0 {
        lemma_noted_len(w, next, indexes, files, n - 1);
    }
}

/// A file that was deleted is gone for every session: none finds it under its path any more, whichever
/// workspaces it has in view.
pub proof fn law_deleted_files_are_gone(
    w: WorldView,
    next: u32,
    indexes: Seq<usize>,
    files: Seq<FileChangeView>,
    list: Seq<NewRootsView>,
    at: int,
    view: Seq<usize>,
)
    requires
        w.wf(next),
        w.base.workspaces.len() <= usize::MAX,
        all_changes_fit(w, next, indexes, files),
        forall|e: int| 0 <= e < list.len() ==> (#[trigger] list[e]).workspace < w.base.workspaces.len(),
        0 <= at < files.len(),
        forall|j: int| at < j < files.len() ==> (#[trigger] files[j]).path.key != files[at].path.key,
        !files[at].exists,
    ensures
        existing_file(saved(w, next, indexes, files, list).base.workspaces, view, files[at].path.key) is None,
{
    let key = files[at].path.key;
    let n = files.len() as int;
    let s = noted_to(w, next, indexes, files, n);
    let ws = s.world.base.workspaces;
    let now = saved(w, next, indexes, files, list).base.workspaces;
    lemma_all_say(w, next, indexes, files, at, n);
    lemma_noted_len(w, next, indexes, files, n);
    lemma_noted_wf(w, next, indexes, files, n);
    lemma_rerooted_files(ws, list, list.len() as int);
    match base_file(now, view, key) {
        None => {},
        Some(f) => {
            law_first_workspace_in_view_decides(now, view, key);
            let p = choose|p: int|
                0 <= p < view.len() && (#[trigger] view[p]) < now.len() && now[view[p] as int].files.by_path.contains_key(key)
                    && now[view[p] as int].files.by_path[key] == f && forall|q: int|
                    0 <= q < p && (#[trigger] view[q]) < now.len() ==> !now[view[q] as int].files.by_path.contains_key(key);
            let at_p = view[p] as int;
            assert(ws[at_p].files.by_path.contains_key(key));
            reveal(crate::world::paths_agree);
            assert(crate::world::workspace_agrees(s.world.file_ids, ws[at_p]));
            assert forall|q: int| 0 <= q < view.len() && (#[trigger] view[q]) < now.len() implies !now[view[q] as int].files.file_exists(f) by {
                let j = view[q] as int;
                assert(crate::world::workspace_agrees(s.world.file_ids, ws[j]));
                if ws[j].files.by_id.contains_key(f) {
                    let k = ws[j].files.by_id[f].path.key;
                    assert(ws[j].files.by_path.contains_key(k) && ws[j].files.by_path[k] == f);
                    assert(s.world.file_ids.contains_key(k) && s.world.file_ids[k] == f);
                    assert(s.world.file_ids.contains_key(key) && s.world.file_ids[key] == f);
                    assert(k == key);
                    assert(ws[j].files.by_path.contains_key(key));
                }
            }
            assert(!base_file_exists(now, view, f));
        },
    }
}

/// A path is looked up in the workspaces in view, in their order, and the first that has it decides.
pub proof fn law_first_workspace_in_view_decides(ws: Seq<LoadedView>, view: Seq<usize>, key: Seq<char>)
    ensures
        base_file(ws, view, key) is None <==> forall|p: int|
            0 <= p < view.len() && (#[trigger] view[p]) < ws.len() ==> !ws[view[p] as int].files.by_path.contains_key(key),
        base_file(ws, view, key) matches Some(f) ==> exists|p: int|
            0 <= p < view.len() && (#[trigger] view[p]) < ws.len() && ws[view[p] as int].files.by_path.contains_key(key)
                && ws[view[p] as int].files.by_path[key] == f && forall|q: int|
                0 <= q < p && (#[trigger] view[q]) < ws.len() ==> !ws[view[q] as int].files.by_path.contains_key(key),
    decreases view.len(),
{
    if view.len() > 0 {
        let rest = view.drop_first();
        if view[0] < ws.len() && ws[view[0] as int].files.by_path.contains_key(key) {
            assert(view[0] < ws.len());
        } else {
            law_first_workspace_in_view_decides(ws, rest, key);
            assert forall|p: int| 0 < p < view.len() implies #[trigger] view[p] == rest[p - 1] by {}
            match base_file(ws, view, key) {
                Some(f) => {
                    let p = choose|p: int|
                        0 <= p < rest.len() && (#[trigger] rest[p]) < ws.len() && ws[rest[p] as int].files.by_path.contains_key(key)
                            && ws[rest[p] as int].files.by_path[key] == f && forall|q: int|
                            0 <= q < p && (#[trigger] rest[q]) < ws.len() ==> !ws[rest[q] as int].files.by_path.contains_key(key);
                    assert(view[p + 1] == rest[p]);
                    assert forall|q: int| 0 <= q < p + 1 && (#[trigger] view[q]) < ws.len() implies !ws[view[q] as int].files.by_path.contains_key(
                        key,
                    ) by {
                        if q > 0 {
                            assert(rest[q - 1] == view[q]);
                        }
                    }
                },
                None => {
                    assert forall|p: int| 0 <= p < view.len() && (#[trigger] view[p]) < ws.len() implies !ws[view[p] as int].files.by_path.contains_key(
                        key,
                    ) by {
                        if p > 0 {
                            assert(rest[p - 1] == view[p]);
                        }
                    }
                },
            }
        }
    }
}

/// A session finds a file under a path exactly when the path leads to a file in view and some workspace
/// in view says that the file exists.
pub proof fn law_existing_files_are_found(ws: Seq<LoadedView>, view: Seq<usize>, key: Seq<char>)
    ensures
        existing_file(ws, view, key) matches Some(f) ==> base_file(ws, view, key) == Some(f) && exists|p: int|
            0 <= p < view.len() && (#[trigger] view[p]) < ws.len() && ws[view[p] as int].files.by_id.contains_key(f)
                && ws[view[p] as int].files.by_id[f].exists,
        existing_file(ws, view, key) is None ==> (base_file(ws, view, key) matches Some(f) ==> forall|p: int|
            0 <= p < view.len() && (#[trigger] view[p]) < ws.len() ==> !(ws[view[p] as int].files.by_id.contains_key(f)
                && ws[view[p] as int].files.by_id[f].exists)),
{
}

/// The line endings of a file are those that the first workspace in view tells in which the file exists
/// and that knows them.
pub proof fn law_line_endings_are_those_of_the_first(ws: Seq<LoadedView>, view: Seq<usize>, f: u32, p: int)
    requires
        0 <= p < view.len(),
        view[p] < ws.len(),
        ws[view[p] as int].files.by_id.contains_key(f),
        ws[view[p] as int].files.by_id[f].exists,
        ws[view[p] as int].line_endings.contains_key(f),
        forall|q: int|
            0 <= q < p && (#[trigger] view[q]) < ws.len() ==> !(ws[view[q] as int].files.by_id.contains_key(f)
                && ws[view[q] as int].files.by_id[f].exists && ws[view[q] as int].line_endings.contains_key(f)),
    ensures
        base_line_endings(ws, view, f) == Some(ws[view[p] as int].line_endings[f]),
    decreases p,
{
    if p > 0 {
        let rest = view.drop_first();
        assert(rest[p - 1] == view[p]);
        assert(!(view[0] < ws.len() && ws[view[0] as int].files.file_exists(f) && ws[view[0] as int].line_endings.contains_key(f)));
        assert forall|q: int| 0 <= q < p - 1 && (#[trigger] rest[q]) < ws.len() implies !(ws[rest[q] as int].files.by_id.contains_key(f)
            && ws[rest[q] as int].files.by_id[f].exists && ws[rest[q] as int].line_endings.contains_key(f)) by {
            assert(rest[q] == view[q + 1]);
        }
        law_line_endings_are_those_of_the_first(ws, rest, f, p - 1);
    }
}

/// Where no workspace in view has the file with known line endings, none are told.
pub proof fn law_unknown_line_endings_are_not_told(ws: Seq<LoadedView>, view: Seq<usize>, f: u32)
    requires
        forall|q: int|
            0 <= q < view.len() && (#[trigger] view[q]) < ws.len() ==> !(ws[view[q] as int].files.by_id.contains_key(f)
                && ws[view[q] as int].files.by_id[f].exists && ws[view[q] as int].line_endings.contains_key(f)),
    ensures
        base_line_endings(ws, view, f) is None,
    decreases view.len(),
{
    if view.len() > 0 {
        let rest = view.drop_first();
        assert(!(view[0] < ws.len() && ws[view[0] as int].files.file_exists(f) && ws[view[0] as int].line_endings.contains_key(f)));
        assert forall|q: int| 0 <= q < rest.len() && (#[trigger] rest[q]) < ws.len() implies !(ws[rest[q] as int].files.by_id.contains_key(f)
            && ws[rest[q] as int].files.by_id[f].exists && ws[rest[q] as int].line_endings.contains_key(f)) by {
            assert(rest[q] == view[q + 1]);
        }
        law_unknown_line_endings_are_not_told(ws, rest, f);
    }
}

/// The database holds the last text that came for a file, and an empty one where the file came without
/// a text.
pub proof fn law_last_text_counts(s: InputsView, changes: Seq<(u32, Option<Seq<char>>)>, j: int)
    requires
        0 <= j < changes.len(),
        forall|i: int| j < i < changes.len() ==> (#[trigger] changes[i]).0 != changes[j].0,
    ensures
        s.with_texts(changes).texts.contains_key(changes[j].0),
        s.with_texts(changes).texts[changes[j].0] == (match changes[j].1 {
            Some(text) => text,
            None => Seq::empty(),
        }),
    decreases changes.len(),
{
    let rest = changes.drop_last();
    if j < rest.len() {
        assert(changes[rest.len() as int].0 != changes[j].0);
        assert(rest[j] == changes[j]);
        assert forall|i: int| j < i < rest.len() implies (#[trigger] rest[i]).0 != rest[j].0 by {
            assert(rest[i] == changes[i]);
        }
        law_last_text_counts(s, rest, j);
    }
}

/// A file that no text came for keeps the one that it had, and texts do not touch roots.
pub proof fn law_other_texts_are_kept(s: InputsView, changes: Seq<(u32, Option<Seq<char>>)>, f: u32)
    requires
        forall|j: int| 0 <= j < changes.len() ==> (#[trigger] changes[j]).0 != f,
    ensures
        ({
            let r = s.with_texts(changes);
            &&& r.texts.contains_key(f) == s.texts.contains_key(f)
            &&& s.texts.contains_key(f) ==> r.texts[f] == s.texts[f]
            &&& r.roots == s.roots && r.file_roots == s.file_roots
            &&& r.local_roots == s.local_roots && r.library_roots == s.library_roots
        }),
    decreases changes.len(),
{
    if changes.len() > 0 {
        let rest = changes.drop_last();
        assert(changes[rest.len() as int].0 != f);
        assert forall|j: int| 0 <= j < rest.len() implies (#[trigger] rest[j]).0 != f by {
            assert(rest[j] == changes[j]);
        }
        law_other_texts_are_kept(s, rest, f);
    }
}

/// The roots that are set are the new ones, each of its kind, with its files under their paths. Roots
/// behind the last new one stay. The local roots are those of the new list that are no library's, and
/// the library roots the others.
pub proof fn law_new_roots_take_the_place_of_old(s: InputsView, new: Seq<RootView>, i: int)
    ensures
        ({
            let r = s.with_roots(new);
            &&& 0 <= i < new.len() ==> {
                &&& i < r.roots.len()
                &&& r.roots[i].is_library == new[i].is_library
                &&& r.roots[i].files.dom() == new[i].files.dom()
                &&& forall|f: u32| #[trigger] new[i].files.contains_key(f) ==> r.roots[i].files[f].text == new[i].files[f].text
            }
            &&& new.len() <= i < s.roots.len() ==> i < r.roots.len() && r.roots[i] == s.roots[i]
            &&& 0 <= i < new.len() && i <= u32::MAX ==> (r.local_roots.contains(i as u32) <==> !new[i].is_library) && (
            r.library_roots.contains(i as u32) <==> new[i].is_library)
            &&& new.len() <= i <= u32::MAX ==> !r.local_roots.contains(i as u32) && !r.library_roots.contains(i as u32)
            &&& r.texts == s.texts
        }),
{
    let r = s.with_roots(new);
    if 0 <= i < new.len() && !root_changed(s.roots, new, i) {
        assert(s.roots[i].files.dom() == new[i].files.dom());
        assert forall|f: u32| #[trigger] new[i].files.contains_key(f) implies r.roots[i].files[f].text == new[i].files[f].text by {
            assert(s.roots[i].files.dom().contains(f));
            assert(s.roots[i].files.contains_key(f));
        }
    }
}

proof fn lemma_unassigned(file_roots: Map<u32, u32>, old: Seq<RootView>, new: Seq<RootView>, n: int, f: u32)
    requires
        0 <= n <= new.len(),
        forall|i: int| 0 <= i < n && #[trigger] new[i].files.contains_key(f) ==> i < old.len() && old[i].files.contains_key(f),
    ensures
        assigned(file_roots, old, new, n).contains_key(f) == file_roots.contains_key(f),
        file_roots.contains_key(f) ==> assigned(file_roots, old, new, n)[f] == file_roots[f],
    decreases n,
{
    if n > 0 {
        lemma_unassigned(file_roots, old, new, n - 1, f);
        assert(!moved(old, new, n - 1).contains(f)) by {
            if new[n - 1].files.contains_key(f) {
                assert(n - 1 < old.len());
            }
        }
    }
}

/// A file that no root newly holds stays in the root that it is in.
pub proof fn law_unmoved_files_keep_their_root(s: InputsView, new: Seq<RootView>, f: u32)
    requires
        forall|i: int|
            0 <= i < new.len() && #[trigger] new[i].files.contains_key(f) ==> i < s.roots.len() && s.roots[i].files.contains_key(f),
    ensures
        s.with_roots(new).file_roots.contains_key(f) == s.file_roots.contains_key(f),
        s.file_roots.contains_key(f) ==> s.with_roots(new).file_roots[f] == s.file_roots[f],
{
    lemma_unassigned(s.file_roots, s.roots, new, new.len() as int, f);
}

/// A workspace has the roots that were worked out for it, and one that none were worked out for keeps
/// its own. Nothing but roots and their parents changes.
pub proof fn law_workspaces_get_their_roots(ws: Seq<LoadedView>, list: Seq<NewRootsView>, n: int, i: int)
    requires
        0 <= n <= list.len(),
        forall|e: int| 0 <= e < list.len() ==> (#[trigger] list[e]).workspace < ws.len(),
        0 <= i < ws.len(),
    ensures
        ({
            let now = rerooted_to(ws, list, n)[i];
            &&& rerooted_to(ws, list, n).len() == ws.len()
            &&& (forall|e: int| 0 <= e < n ==> (#[trigger] list[e]).workspace != i) ==> now == ws[i]
            &&& forall|e: int|
                0 <= e < n && (#[trigger] list[e]).workspace == i && (forall|d: int| e < d < n ==> (#[trigger] list[d]).workspace != i)
                    ==> same_roots(now.source_roots, list[e].roots)
            &&& now == (LoadedView { source_roots: now.source_roots, parents: now.parents, ..ws[i] })
        }),
    decreases n,
{
    if n > 0 {
        assert(list[n - 1].workspace < ws.len());
        law_workspaces_get_their_roots(ws, list, n - 1, i);
        law_workspaces_get_their_roots(ws, list, n - 1, list[n - 1].workspace as int);
        let entry = list[n - 1];
        if entry.workspace == i {
            assert(same_roots(entry.roots, entry.roots));
        }
    }
}

} // verus!
