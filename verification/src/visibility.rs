//! What sessions see of a world and of each other, stated on its tables.
use crate::base::LoadedView;
use crate::lookup::{base_path, file_excluded, visible_on_disk, visible_roots, world_path};
use crate::open_files::{
    disk_ratoml_to, file_matters, open_ratoml_to, planned, summaries_to, view_ratoml_to, RatomlView,
};
use crate::ordered::{lemma_sorted_exists, sorted_keys};
use crate::overlay::OverlayView;
use crate::overlay_files::OpenFileView;
use crate::paths::is_ratoml;
use crate::privacy::seen_file;
use crate::sessions::{left_by, notified, registered};
use crate::sync::overlay_or_empty;
use crate::update::{can_update, differs_to, new_texts_to, updated_to};
use crate::world::{UpdateView, WorldView};
use vstd::prelude::*;

verus! {

/// The path of a file is the one that the first workspace of the world gives it that has the file.
pub proof fn law_first_workspace_names_the_file(ws: Seq<LoadedView>, f: u32)
    ensures
        world_path(ws, f) is None <==> forall|i: int| 0 <= i < ws.len() ==> !(#[trigger] ws[i]).files.by_id.contains_key(f),
        world_path(ws, f) matches Some(path) ==> exists|i: int|
            0 <= i < ws.len() && (#[trigger] ws[i]).files.by_id.contains_key(f) && ws[i].files.by_id[f].path == path && forall|j: int|
                0 <= j < i ==> !(#[trigger] ws[j]).files.by_id.contains_key(f),
    decreases ws.len(),
{
    if ws.len() > 0 {
        let rest = ws.drop_first();
        if ws[0].files.by_id.contains_key(f) {
            assert(ws[0].files.by_id[f].path == world_path(ws, f)->0);
        } else {
            law_first_workspace_names_the_file(rest, f);
            match world_path(ws, f) {
                None => {
                    assert forall|i: int| 0 <= i < ws.len() implies !(#[trigger] ws[i]).files.by_id.contains_key(f) by {
                        if i > 0 {
                            assert(rest[i - 1] == ws[i]);
                        }
                    }
                },
                Some(path) => {
                    let i = choose|i: int|
                        0 <= i < rest.len() && (#[trigger] rest[i]).files.by_id.contains_key(f) && rest[i].files.by_id[f].path == path
                            && forall|j: int| 0 <= j < i ==> !(#[trigger] rest[j]).files.by_id.contains_key(f);
                    assert(ws[i + 1] == rest[i]);
                    assert forall|j: int| 0 <= j < i + 1 implies !(#[trigger] ws[j]).files.by_id.contains_key(f) by {
                        if j > 0 {
                            assert(rest[j - 1] == ws[j]);
                        }
                    }
                },
            }
        }
    }
}

/// A session finds the path of a file on disk in the first workspace in view that has the file.
pub proof fn law_first_workspace_in_view_names_the_file(ws: Seq<LoadedView>, view: Seq<usize>, f: u32)
    ensures
        base_path(ws, view, f) is None <==> forall|p: int|
            0 <= p < view.len() && (#[trigger] view[p]) < ws.len() ==> !ws[view[p] as int].files.by_id.contains_key(f),
        base_path(ws, view, f) matches Some(path) ==> exists|p: int|
            0 <= p < view.len() && (#[trigger] view[p]) < ws.len() && ws[view[p] as int].files.by_id.contains_key(f)
                && ws[view[p] as int].files.by_id[f].path == path && forall|q: int|
                0 <= q < p && (#[trigger] view[q]) < ws.len() ==> !ws[view[q] as int].files.by_id.contains_key(f),
    decreases view.len(),
{
    if view.len() > 0 {
        let rest = view.drop_first();
        if view[0] < ws.len() && ws[view[0] as int].files.by_id.contains_key(f) {
            assert(view[0] < ws.len());
        } else {
            law_first_workspace_in_view_names_the_file(ws, rest, f);
            match base_path(ws, view, f) {
                Some(path) => {
                    let p = choose|p: int|
                        0 <= p < rest.len() && (#[trigger] rest[p]) < ws.len() && ws[rest[p] as int].files.by_id.contains_key(f)
                            && ws[rest[p] as int].files.by_id[f].path == path && forall|q: int|
                            0 <= q < p && (#[trigger] rest[q]) < ws.len() ==> !ws[rest[q] as int].files.by_id.contains_key(f);
                    assert(view[p + 1] == rest[p]);
                    assert forall|q: int| 0 <= q < p + 1 && (#[trigger] view[q]) < ws.len() implies !ws[view[q] as int].files.by_id.contains_key(
                        f,
                    ) by {
                        if q > 0 {
                            assert(rest[q - 1] == view[q]);
                        }
                    }
                },
                None => {
                    assert forall|p: int| 0 <= p < view.len() && (#[trigger] view[p]) < ws.len() implies !ws[view[p] as int].files.by_id.contains_key(
                        f,
                    ) by {
                        if p > 0 {
                            assert(rest[p - 1] == view[p]);
                        }
                    }
                },
            }
        }
    }
}

/// A file is excluded exactly when its path in the world begins with one of the excluded paths.
pub proof fn law_excluded_files_lie_below_excluded_paths(ws: Seq<LoadedView>, f: u32, excluded: Seq<Seq<char>>)
    ensures
        file_excluded(ws, f, excluded) <==> (world_path(ws, f) matches Some(path) && exists|i: int|
            0 <= i < excluded.len() && (#[trigger] excluded[i]).len() <= path.key.len() && path.key.take(excluded[i].len() as int)
                == excluded[i]),
{
    match world_path(ws, f) {
        None => {},
        Some(path) => {
            if file_excluded(ws, f, excluded) {
                let i = choose|i: int| 0 <= i < excluded.len() && (#[trigger] excluded[i]).is_prefix_of(path.key);
                assert(path.key.take(excluded[i].len() as int) =~= path.key.subrange(0, excluded[i].len() as int));
                assert(excluded[i].len() <= path.key.len());
            }
            if exists|i: int|
                0 <= i < excluded.len() && (#[trigger] excluded[i]).len() <= path.key.len() && path.key.take(
                    excluded[i].len() as int,
                ) == excluded[i] {
                let i = choose|i: int|
                    0 <= i < excluded.len() && (#[trigger] excluded[i]).len() <= path.key.len() && path.key.take(
                        excluded[i].len() as int,
                    ) == excluded[i];
                assert(path.key.take(excluded[i].len() as int) =~= path.key.subrange(0, excluded[i].len() as int));
                assert(excluded[i].is_prefix_of(path.key));
            }
        },
    }
}

/// A session sees the crates on disk whose root file one of its workspaces has, unless its overlay covers
/// them or their root file is excluded, and the crates of its own overlay, by their root files there. It
/// sees no others.
pub proof fn law_session_sees_crates_in_view(w: WorldView, session: u64, view: Seq<usize>, excluded: Seq<Seq<char>>, f: u32)
    ensures
        ({
            let own = overlay_or_empty(w, session).crates;
            visible_roots(w, session, view, excluded).contains(f) <==> {
                ||| exists|c: int|
                    {
                        &&& 0 <= c < w.base.crates.len() && (#[trigger] w.base.crates[c]).root_file == f
                        &&& !own.contains_key(w.base.crates[c].id)
                        &&& !file_excluded(w.base.workspaces, f, excluded)
                        &&& exists|p: int|
                            0 <= p < view.len() && (#[trigger] view[p]) < w.base.workspaces.len()
                                && w.base.workspaces[view[p] as int].files.by_id.contains_key(f)
                    }
                ||| exists|id: u32| #[trigger] own.contains_key(id) && own[id] == f
            }
        }),
{
    let own = overlay_or_empty(w, session).crates;
    let ws = w.base.workspaces;
    if visible_on_disk(w, session, view, excluded, f) {
        let c = choose|c: int|
            0 <= c < w.base.crates.len() && crate::lookup::is_visible_crate(w, session, view, excluded, c)
                && (#[trigger] w.base.crates[c]).root_file == f;
        crate::cone::law_view_is_of_its_workspaces(ws, view, f);
        assert(w.base.crates[c].root_file == f);
    }
    if own.contains_value(f) {
        let id = choose|id: u32| #[trigger] own.dom().contains(id) && own[id] == f;
        assert(own.contains_key(id));
    }
    if exists|c: int|
        {
            &&& 0 <= c < w.base.crates.len() && (#[trigger] w.base.crates[c]).root_file == f
            &&& !own.contains_key(w.base.crates[c].id)
            &&& !file_excluded(w.base.workspaces, f, excluded)
            &&& exists|p: int|
                0 <= p < view.len() && (#[trigger] view[p]) < w.base.workspaces.len()
                    && w.base.workspaces[view[p] as int].files.by_id.contains_key(f)
        } {
        let c = choose|c: int|
            {
                &&& 0 <= c < w.base.crates.len() && (#[trigger] w.base.crates[c]).root_file == f
                &&& !own.contains_key(w.base.crates[c].id)
                &&& !file_excluded(w.base.workspaces, f, excluded)
                &&& exists|p: int|
                    0 <= p < view.len() && (#[trigger] view[p]) < w.base.workspaces.len()
                        && w.base.workspaces[view[p] as int].files.by_id.contains_key(f)
            };
        crate::cone::law_view_is_of_its_workspaces(ws, view, f);
        assert(crate::lookup::is_visible_crate(w, session, view, excluded, c));
        assert(visible_on_disk(w, session, view, excluded, f));
    }
    if exists|id: u32| #[trigger] own.contains_key(id) && own[id] == f {
        let id = choose|id: u32| #[trigger] own.contains_key(id) && own[id] == f;
        assert(own.dom().contains(id));
        assert(own.contains_value(f));
    }
}

/// No session sees a crate of another session's overlay.
pub proof fn law_overlaid_crates_of_others_are_not_seen(
    w: WorldView,
    next: u32,
    session: u64,
    view: Seq<usize>,
    excluded: Seq<Seq<char>>,
    other: u64,
    id: u32,
)
    requires
        w.wf(next),
        other != session,
        w.overlays.contains_key(other),
        w.overlays[other].crates.contains_key(id),
    ensures
        !visible_roots(w, session, view, excluded).contains(w.overlays[other].crates[id]),
{
    let f = w.overlays[other].crates[id];
    assert(w.overlays[other].wf());
    assert(w.overlays[other].path_by_file.contains_key(f));
    law_session_sees_crates_in_view(w, session, view, excluded, f);
    let own = overlay_or_empty(w, session).crates;
    if exists|k: u32| #[trigger] own.contains_key(k) && own[k] == f {
        let k = choose|k: u32| #[trigger] own.contains_key(k) && own[k] == f;
        assert(w.overlays.contains_key(session) && w.overlays[session].wf());
        assert(w.overlays[session].path_by_file.contains_key(f));
    }
    assert forall|p: int| 0 <= p < view.len() && (#[trigger] view[p]) < w.base.workspaces.len() implies !w.base.workspaces[view[p] as int].files.by_id.contains_key(
        f,
    ) by {
        if w.base.workspaces[view[p] as int].files.by_id.contains_key(f) {
            assert(w.base.workspaces[view[p] as int].files.contains_file(f));
        }
    }
}

/// What a session finds under a path is its overlay's file where the overlay holds the path, and else the
/// file on disk in view.
pub proof fn law_overlay_comes_before_the_disk(w: WorldView, session: u64, view: Seq<usize>, key: Seq<char>)
    ensures
        w.overlays.contains_key(session) && w.overlays[session].files.contains_key(key) ==> seen_file(w, session, view, key) == Some(
            w.overlays[session].files[key].overlay_file,
        ),
        !(w.overlays.contains_key(session) && w.overlays[session].files.contains_key(key)) ==> seen_file(w, session, view, key)
            == crate::base::base_file(w.base.workspaces, view, key),
{
}

/// Of a change to workspaces every other session is told that has one of them in view, and nobody else:
/// a session has something to take notice of exactly when it had before or when it shares a workspace
/// with the change that it did not make itself.
pub proof fn law_all_viewers_are_told(updates: Map<u64, UpdateView>, session: u64, indexes: Seq<usize>, id: u64)
    ensures
        ({
            let now = notified(updates, session, indexes);
            &&& now.contains_key(id) == updates.contains_key(id)
            &&& updates.contains_key(id) ==> now[id].workspace_indexes == updates[id].workspace_indexes
            &&& updates.contains_key(id) ==> (now[id].pending <==> updates[id].pending || (id != session && exists|i: int, j: int|
                0 <= i < updates[id].workspace_indexes.len() && 0 <= j < indexes.len()
                    && #[trigger] updates[id].workspace_indexes[i] == #[trigger] indexes[j]))
        }),
{
    if updates.contains_key(id) {
        let own = updates[id].workspace_indexes;
        if crate::sessions::shares_index(own, indexes) {
            let i = choose|i: int| 0 <= i < own.len() && indexes.contains(#[trigger] own[i]);
            let j = indexes.index_of(own[i]);
            assert(own[i] == indexes[j]);
        }
        if exists|i: int, j: int| 0 <= i < own.len() && 0 <= j < indexes.len() && #[trigger] own[i] == #[trigger] indexes[j] {
            let (i, j) = choose|i: int, j: int|
                0 <= i < own.len() && 0 <= j < indexes.len() && #[trigger] own[i] == #[trigger] indexes[j];
            assert(indexes.contains(own[i]));
        }
    }
}

/// A session that joins sees the disk: it has an overlay of its own with nothing in it, the workspaces
/// that it was given in view, and nothing to take notice of. The others keep their overlays, views and
/// notices.
pub proof fn law_new_session_starts_from_the_disk(w: WorldView, indexes: Seq<usize>, other: u64)
    requires
        w.next_session_id < u64::MAX,
        other != w.next_session_id,
    ensures
        ({
            let r = registered(w, indexes);
            let id = w.next_session_id;
            &&& r.overlays.contains_key(id) && r.overlays[id].files.dom().is_empty() && r.overlays[id].crates.dom().is_empty()
                && r.overlays[id].open_files.dom().is_empty()
            &&& r.updates.contains_key(id) && r.updates[id].workspace_indexes == indexes && !r.updates[id].pending
            &&& r.next_session_id == id + 1
            &&& r.overlays.contains_key(other) == w.overlays.contains_key(other) && r.updates.contains_key(other)
                == w.updates.contains_key(other)
            &&& w.overlays.contains_key(other) ==> r.overlays[other] == w.overlays[other]
            &&& w.updates.contains_key(other) ==> r.updates[other] == w.updates[other]
            &&& r.base == w.base && r.applied == w.applied
        }),
{
}

/// A session that leaves is told nothing more, and the others keep their overlays, views and notices.
pub proof fn law_leaving_session_is_forgotten(w: WorldView, session: u64, other: u64)
    requires
        other != session,
    ensures
        ({
            let r = left_by(w, session);
            &&& !r.overlays.contains_key(session) && !r.updates.contains_key(session)
            &&& r.overlays.contains_key(other) == w.overlays.contains_key(other) && r.updates.contains_key(other)
                == w.updates.contains_key(other)
            &&& w.overlays.contains_key(other) ==> r.overlays[other] == w.overlays[other]
            &&& w.updates.contains_key(other) ==> r.updates[other] == w.updates[other]
        }),
{
}

/// New texts can be put into an overlay as it is exactly when it was made for the same workspaces in view
/// and holds as many open files as there are now, at least one, and each of these is among them.
pub proof fn law_overlay_is_kept_for_the_same_files(w: WorldView, session: u64, view: Seq<usize>, files: Seq<OpenFileView>)
    ensures
        can_update(w, session, view, files) <==> w.overlays.contains_key(session) && {
            let overlay = w.overlays[session];
            &&& overlay.workspaces == view
            &&& overlay.open_files.dom().len() == files.len() && files.len() > 0
            &&& forall|i: int| 0 <= i < files.len() ==> overlay.open_files.contains_key((#[trigger] files[i]).path.key)
        },
{
}

/// Once texts are put into an overlay, it shows for each path the last of them, as open and with its line
/// endings, under the number that the file had.
pub proof fn law_typed_text_is_in_the_overlay(overlay: OverlayView, files: Seq<OpenFileView>, n: int, key: Seq<char>)
    requires
        0 <= n <= files.len(),
    ensures
        ({
            let now = updated_to(overlay, files, n);
            &&& (forall|i: int| 0 <= i < n ==> (#[trigger] files[i]).path.key != key) ==> now.files.contains_key(key)
                == overlay.files.contains_key(key) && (overlay.files.contains_key(key) ==> now.files[key] == overlay.files[key])
                && now.open_files.contains_key(key) == overlay.open_files.contains_key(key)
            &&& forall|i: int|
                0 <= i < n && (#[trigger] files[i]).path.key == key && (forall|j: int|
                    i < j < n ==> (#[trigger] files[j]).path.key != key) ==> now.files.contains_key(key) && now.files[key].text
                    == files[i].text && now.files[key].line_endings == files[i].line_endings && now.open_files.contains_key(key)
                    && now.open_files[key] == files[i].text
            &&& overlay.files.contains_key(key) ==> now.files[key].overlay_file == overlay.files[key].overlay_file
                && now.files[key].base_source_root == overlay.files[key].base_source_root && now.files[key].path
                == overlay.files[key].path && now.files[key].display_path == overlay.files[key].display_path
            &&& now.path_by_file == overlay.path_by_file && now.crates == overlay.crates && now.workspaces == overlay.workspaces
        }),
    decreases n,
{
    if n > 0 {
        law_typed_text_is_in_the_overlay(overlay, files, n - 1, key);
        let before = updated_to(overlay, files, n - 1);
        let now = updated_to(overlay, files, n);
        if files[n - 1].path.key == key {
            assert(now.files[key].text == files[n - 1].text);
        } else {
            assert(now.files.contains_key(key) == before.files.contains_key(key));
            assert(before.files.contains_key(key) ==> now.files[key] == before.files[key]);
        }
    }
}

proof fn lemma_untouched(overlay: OverlayView, files: Seq<OpenFileView>, n: int)
    requires
        0 < n <= files.len(),
        forall|i: int, j: int| 0 <= i < j < files.len() ==> (#[trigger] files[i]).path.key != (#[trigger] files[j]).path.key,
        overlay.files.contains_key(files[n - 1].path.key),
    ensures
        updated_to(overlay, files, n - 1).files[files[n - 1].path.key] == overlay.files[files[n - 1].path.key],
{
    let key = files[n - 1].path.key;
    law_typed_text_is_in_the_overlay(overlay, files, n - 1, key);
    assert forall|i: int| 0 <= i < n - 1 implies (#[trigger] files[i]).path.key != key by {
        assert(files[i].path.key != files[n - 1].path.key);
    }
}

/// An overlay counts as changed by new texts for different paths exactly when some of them, or its line
/// endings, is not what it shows.
pub proof fn law_same_texts_change_nothing(overlay: OverlayView, files: Seq<OpenFileView>, n: int)
    requires
        0 <= n <= files.len(),
        forall|i: int, j: int| 0 <= i < j < files.len() ==> (#[trigger] files[i]).path.key != (#[trigger] files[j]).path.key,
        forall|i: int| 0 <= i < files.len() ==> overlay.files.contains_key((#[trigger] files[i]).path.key),
    ensures
        !differs_to(overlay, files, n) <==> forall|i: int|
            0 <= i < n ==> overlay.files[(#[trigger] files[i]).path.key].text == files[i].text
                && overlay.files[files[i].path.key].line_endings == files[i].line_endings,
    decreases n,
{
    if n > 0 {
        law_same_texts_change_nothing(overlay, files, n - 1);
        let last = files[n - 1];
        assert(overlay.files.contains_key(last.path.key));
        lemma_untouched(overlay, files, n);
    }
}

/// Of new texts for different paths the database is told those that the overlay does not show yet, each
/// under the number of its file, and no others.
pub proof fn law_new_texts_are_told(
    overlay: OverlayView,
    files: Seq<OpenFileView>,
    n: int,
    change: (u32, Option<Seq<char>>),
)
    requires
        0 <= n <= files.len(),
        forall|i: int, j: int| 0 <= i < j < files.len() ==> (#[trigger] files[i]).path.key != (#[trigger] files[j]).path.key,
        forall|i: int| 0 <= i < files.len() ==> overlay.files.contains_key((#[trigger] files[i]).path.key),
    ensures
        new_texts_to(overlay, files, n).contains(change) <==> exists|i: int|
            0 <= i < n && is_new_text(overlay, #[trigger] files[i], change),
    decreases n,
{
    if n > 0 {
        law_new_texts_are_told(overlay, files, n - 1, change);
        let last = files[n - 1];
        assert(overlay.files.contains_key(last.path.key));
        lemma_untouched(overlay, files, n);
        let before = new_texts_to(overlay, files, n - 1);
        let entry = overlay.files[last.path.key];
        lemma_push(before, (entry.overlay_file, Some(last.text)), change);
        if before.contains(change) {
            let i = choose|i: int| 0 <= i < n - 1 && is_new_text(overlay, #[trigger] files[i], change);
            assert(is_new_text(overlay, files[i], change));
        } else if new_texts_to(overlay, files, n).contains(change) {
            assert(is_new_text(overlay, files[n - 1], change));
        }
    }
}

/// The text is one of an open file that the overlay does not show yet, under the number of the file.
pub open spec fn is_new_text(overlay: OverlayView, file: OpenFileView, change: (u32, Option<Seq<char>>)) -> bool {
    change == (overlay.files[file.path.key].overlay_file, Some(file.text)) && overlay.files[file.path.key].text != file.text
}

/// The open files of a session ask for work exactly when it has an overlay with files in it, or one of
/// them is not as the disk has it. Then its overlay is made anew where that is forced, and where they do
/// not ask for any nothing is done, forced or not.
pub proof fn law_forced_overlay_is_made_anew(w: WorldView, session: u64, view: Seq<usize>, files: Seq<OpenFileView>)
    ensures
        ({
            let overlaid = exists|k: Seq<char>| #[trigger] overlay_or_empty(w, session).files.contains_key(k);
            let asked = overlaid || exists|i: int| 0 <= i < files.len() && file_matters(w, view, #[trigger] files[i]);
            &&& asked ==> planned(w, session, view, files, true) is Rebuild
            &&& !asked ==> forall|force: bool| #[trigger] planned(w, session, view, files, force) is Keep
        }),
{
    let own = overlay_or_empty(w, session).files;
    if exists|k: Seq<char>| #[trigger] own.contains_key(k) {
        let k = choose|k: Seq<char>| #[trigger] own.contains_key(k);
        assert(own != Map::<Seq<char>, crate::overlay::OverlayFileView>::empty());
    } else {
        assert(own =~= Map::<Seq<char>, crate::overlay::OverlayFileView>::empty());
    }
}

/// An open file that is on disk matters exactly when its text or its line endings are others there, and
/// one that is not on disk exactly when it has a source root.
pub proof fn law_unsaved_files_matter(w: WorldView, view: Seq<usize>, file: OpenFileView)
    ensures
        crate::base::existing_file(w.base.workspaces, view, file.path.key) matches Some(f) ==> (!file_matters(w, view, file)
            <==> w.base.inputs.texts[f] == file.text && crate::base::base_line_endings(w.base.workspaces, view, f) == Some(
            file.line_endings,
        )),
        crate::base::existing_file(w.base.workspaces, view, file.path.key) is None ==> (file_matters(w, view, file)
            <==> crate::base::source_root_for_path(w.base, view, file.path.key, file.classified) is Some),
{
}

proof fn lemma_push<A>(s: Seq<A>, a: A, x: A)
    ensures
        s.push(a).contains(x) <==> s.contains(x) || x == a,
{
    let t = s.push(a);
    if s.contains(x) {
        let i = s.index_of(x);
        assert(t[i] == x);
    }
    if x == a {
        assert(t[s.len() as int] == x);
    }
    if t.contains(x) {
        let i = t.index_of(x);
        if i < s.len() {
            assert(s[i] == x);
        }
    }
}

proof fn lemma_add<A>(s: Seq<A>, t: Seq<A>, x: A)
    ensures
        (s + t).contains(x) <==> s.contains(x) || t.contains(x),
{
    let u = s + t;
    if s.contains(x) {
        let i = s.index_of(x);
        assert(u[i] == x);
    }
    if t.contains(x) {
        let i = t.index_of(x);
        assert(u[s.len() + i] == x);
    }
    if u.contains(x) {
        let i = u.index_of(x);
        if i < s.len() {
            assert(s[i] == x);
        } else {
            assert(t[i - s.len()] == x);
        }
    }
}

spec fn is_setting(w: WorldView, index: int, f: u32, r: RatomlView) -> bool {
    let files = w.base.workspaces[index].files;
    let root = w.base.inputs.file_roots[f];
    &&& files.by_id.contains_key(f) && files.by_id[f].exists && is_ratoml(files.by_id[f].path.text)
    &&& r.path == files.by_id[f].path && r.source_root == root
    &&& r.is_library == w.base.inputs.roots[root as int].is_library && r.text == w.base.inputs.texts[f]
}

proof fn lemma_disk_settings(w: WorldView, index: int, n: int, r: RatomlView)
    requires
        0 <= n <= sorted_keys::<u32>(w.base.workspaces[index].files.by_id.dom()).len(),
    ensures
        disk_ratoml_to(w, index, n).contains(r) <==> exists|j: int|
            0 <= j < n && is_setting(w, index, #[trigger] sorted_keys::<u32>(w.base.workspaces[index].files.by_id.dom())[j], r),
    decreases n,
{
    let keys = sorted_keys::<u32>(w.base.workspaces[index].files.by_id.dom());
    if n > 0 {
        lemma_disk_settings(w, index, n - 1, r);
        let files = w.base.workspaces[index].files;
        let f = keys[n - 1];
        let root = w.base.inputs.file_roots[f];
        let made = RatomlView {
            path: files.by_id[f].path,
            source_root: root,
            is_library: w.base.inputs.roots[root as int].is_library,
            text: w.base.inputs.texts[f],
        };
        lemma_push(disk_ratoml_to(w, index, n - 1), made, r);
        if disk_ratoml_to(w, index, n - 1).contains(r) {
            let j = choose|j: int| 0 <= j < n - 1 && is_setting(w, index, #[trigger] keys[j], r);
            assert(is_setting(w, index, keys[j], r));
        } else if disk_ratoml_to(w, index, n).contains(r) {
            assert(is_setting(w, index, keys[n - 1], r));
        }
    }
}

/// The settings files on disk that a session sees are those that exist in a workspace in view and are
/// named so, each with its path, its source root and the kind of that, and the text on disk.
pub proof fn law_settings_on_disk_are_seen(w: WorldView, view: Seq<usize>, n: int, r: RatomlView)
    requires
        0 <= n <= view.len(),
        forall|i: int| 0 <= i < w.base.workspaces.len() ==> (#[trigger] w.base.workspaces[i]).files.by_id.dom().finite(),
    ensures
        view_ratoml_to(w, view, n).contains(r) <==> exists|p: int, f: u32|
            {
                let files = w.base.workspaces[view[p] as int].files;
                let root = w.base.inputs.file_roots[f];
                &&& 0 <= p < n && view[p] < w.base.workspaces.len()
                &&& #[trigger] w.base.workspaces[view[p] as int].files.by_id.contains_key(f) && files.by_id[f].exists && is_ratoml(
                    files.by_id[f].path.text,
                )
                &&& r.path == files.by_id[f].path && r.source_root == root
                &&& r.is_library == w.base.inputs.roots[root as int].is_library && r.text == w.base.inputs.texts[f]
            },
    decreases n,
{
    if n > 0 {
        law_settings_on_disk_are_seen(w, view, n - 1, r);
        let before = view_ratoml_to(w, view, n - 1);
        let index = view[n - 1] as int;
        if index < w.base.workspaces.len() {
            let dom = w.base.workspaces[index].files.by_id.dom();
            let keys = sorted_keys::<u32>(dom);
            lemma_sorted_exists::<u32>(dom);
            lemma_disk_settings(w, index, keys.len() as int, r);
            lemma_add(before, disk_ratoml_to(w, index, keys.len() as int), r);
            if disk_ratoml_to(w, index, keys.len() as int).contains(r) {
                let j = choose|j: int| 0 <= j < keys.len() && is_setting(w, index, #[trigger] keys[j], r);
                assert(w.base.workspaces[view[n - 1] as int].files.by_id.contains_key(keys[j]));
            }
            assert forall|f: u32| is_setting(w, index, f, r) implies disk_ratoml_to(w, index, keys.len() as int).contains(r) by {
                assert(keys.to_set().contains(f));
                let j = keys.index_of(f);
                assert(is_setting(w, index, keys[j], r));
            }
        }
        if before.contains(r) {
            let (p, f) = choose|p: int, f: u32|
                {
                    let files = w.base.workspaces[view[p] as int].files;
                    let root = w.base.inputs.file_roots[f];
                    &&& 0 <= p < n - 1 && view[p] < w.base.workspaces.len()
                    &&& #[trigger] w.base.workspaces[view[p] as int].files.by_id.contains_key(f) && files.by_id[f].exists
                        && is_ratoml(files.by_id[f].path.text)
                    &&& r.path == files.by_id[f].path && r.source_root == root
                    &&& r.is_library == w.base.inputs.roots[root as int].is_library && r.text == w.base.inputs.texts[f]
                };
            assert(w.base.workspaces[view[p] as int].files.by_id.contains_key(f));
        }
    }
}

/// The open settings files that a session sees are those of its overlay that it has open and that are
/// named so, each with the text in the editor.
pub proof fn law_open_settings_are_seen(o: OverlayView, r: RatomlView)
    requires
        o.open_files.dom().finite(),
    ensures
        open_ratoml_to(o, sorted_keys::<String>(o.open_files.dom()).len() as int).contains(r) <==> exists|k: Seq<char>|
            #[trigger] o.open_files.contains_key(k) && is_ratoml(o.files[k].display_path.text) && r.path == o.files[k].display_path
                && r.source_root == o.files[k].base_source_root && !r.is_library && r.text == o.files[k].text,
{
    let keys = sorted_keys::<String>(o.open_files.dom());
    lemma_sorted_exists::<String>(o.open_files.dom());
    lemma_open_settings(o, keys.len() as int, r);
    if open_ratoml_to(o, keys.len() as int).contains(r) {
        let j = choose|j: int| 0 <= j < keys.len() && is_open_setting(o, #[trigger] keys[j], r);
        assert(keys.to_set().contains(keys[j]));
        assert(o.open_files.contains_key(keys[j]));
    }
    assert forall|k: Seq<char>| #[trigger] o.open_files.contains_key(k) && is_open_setting(o, k, r) implies open_ratoml_to(
        o,
        keys.len() as int,
    ).contains(r) by {
        assert(keys.to_set().contains(k));
        let j = keys.index_of(k);
        assert(is_open_setting(o, keys[j], r));
    }
}

spec fn is_open_setting(o: OverlayView, k: Seq<char>, r: RatomlView) -> bool {
    is_ratoml(o.files[k].display_path.text) && r.path == o.files[k].display_path && r.source_root == o.files[k].base_source_root
        && !r.is_library && r.text == o.files[k].text
}

proof fn lemma_open_settings(o: OverlayView, n: int, r: RatomlView)
    requires
        0 <= n <= sorted_keys::<String>(o.open_files.dom()).len(),
    ensures
        open_ratoml_to(o, n).contains(r) <==> exists|j: int|
            0 <= j < n && is_open_setting(o, #[trigger] sorted_keys::<String>(o.open_files.dom())[j], r),
    decreases n,
{
    let keys = sorted_keys::<String>(o.open_files.dom());
    if n > 0 {
        lemma_open_settings(o, n - 1, r);
        let file = o.files[keys[n - 1]];
        let made = RatomlView {
            path: file.display_path,
            source_root: file.base_source_root,
            is_library: false,
            text: file.text,
        };
        lemma_push(open_ratoml_to(o, n - 1), made, r);
        if open_ratoml_to(o, n - 1).contains(r) {
            let j = choose|j: int| 0 <= j < n - 1 && is_open_setting(o, #[trigger] keys[j], r);
            assert(is_open_setting(o, keys[j], r));
        } else if open_ratoml_to(o, n).contains(r) {
            assert(is_open_setting(o, keys[n - 1], r));
        }
    }
}

/// The summaries of a view are those of its workspaces that are there, in their order.
pub proof fn law_summaries_follow_the_view(ws: Seq<LoadedView>, view: Seq<usize>, n: int)
    requires
        0 <= n <= view.len(),
    ensures
        ({
            let there = view.take(n).filter(|i: usize| i < ws.len());
            &&& summaries_to(ws, view, n).len() == there.len()
            &&& forall|k: int| 0 <= k < there.len() ==> summaries_to(ws, view, n)[k] == ws[#[trigger] there[k] as int].summary
        }),
    decreases n,
{
    reveal(Seq::filter);
    if n > 0 {
        law_summaries_follow_the_view(ws, view, n - 1);
        assert(view.take(n).drop_last() =~= view.take(n - 1));
        let was = view.take(n - 1).filter(|i: usize| i < ws.len());
        let there = view.take(n).filter(|i: usize| i < ws.len());
        assert forall|k: int| 0 <= k < there.len() implies summaries_to(ws, view, n)[k] == ws[#[trigger] there[k] as int].summary by {
            if k < was.len() {
                assert(was[k] == there[k]);
            }
        }
    }
}

} // verus!
