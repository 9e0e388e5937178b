//! What a session sees of a file, and what other sessions' edits do to it.
use crate::base::{base_file, base_line_endings};
use crate::overlay::{entry_differs, overlay_needed, shows_other};
use crate::overlay_build::{
    built, by_path, lemma_all_dropped, lemma_built, lemma_by_path, lemma_fresh_total,
    numbers_below,
};
use crate::overlay_files::{known_roots, PreparedView};
use crate::rebuild::{disk_roots, lemma_disk_roots_kept, lemma_rebuilt, rebuilt};
use crate::sync::{
    given, lemma_staged, new_overlay, overlay_of, overlay_or_empty, staged, sync_removed, synced, to_sync, wanted,
};
use crate::world::WorldView;
use vstd::prelude::*;

verus! {

/// The file that a session finds under a path: the one in its overlay, or else the one on disk.
pub open spec fn seen_file(w: WorldView, session: u64, indexes: Seq<usize>, key: Seq<char>) -> Option<u32> {
    match overlay_of(w, session) {
        Some(overlay) => if overlay.files.contains_key(key) {
            Some(overlay.files[key].overlay_file)
        } else {
            base_file(w.base.workspaces, indexes, key)
        },
        None => base_file(w.base.workspaces, indexes, key),
    }
}

/// The text that a session finds under a path.
pub open spec fn seen_text(w: WorldView, session: u64, indexes: Seq<usize>, key: Seq<char>) -> Option<Seq<char>> {
    match seen_file(w, session, indexes, key) {
        Some(file) => Some(w.base.inputs.texts[file]),
        None => None,
    }
}

/// Some workspace has the file.
pub open spec fn on_disk(w: WorldView, f: u32) -> bool {
    exists|i: int| 0 <= i < w.base.workspaces.len() && #[trigger] w.base.workspaces[i].files.contains_file(f)
}

/// A file that the workspaces have under a path is one of their files.
pub proof fn lemma_base_file(w: WorldView, next: u32, indexes: Seq<usize>, key: Seq<char>)
    requires
        w.wf(next),
    ensures
        base_file(w.base.workspaces, indexes, key) is Some ==> on_disk(w, base_file(w.base.workspaces, indexes, key)->0),
    decreases indexes.len(),
{
    if indexes.len() > 0 {
        let i = indexes[0] as int;
        if i < w.base.workspaces.len() && w.base.workspaces[i].files.file_id(key) is Some {
            assert(w.base.workspaces[i].files.wf());
            assert(w.base.workspaces[i].files.by_path.contains_key(key));
            assert(w.base.workspaces[i].files.contains_file(w.base.workspaces[i].files.by_path[key]));
        } else {
            lemma_base_file(w, next, indexes.drop_first(), key);
        }
    }
}

/// What a session finds is not in the overlay of another.
pub proof fn lemma_seen_file_elsewhere(w: WorldView, next: u32, session: u64, indexes: Seq<usize>, key: Seq<char>)
    requires
        w.wf(next),
    ensures
        seen_file(w, session, indexes, key) matches Some(f) ==> forall|t: u64|
            t != session && #[trigger] w.overlays.contains_key(t) ==> !w.overlays[t].path_by_file.contains_key(f),
{
    match seen_file(w, session, indexes, key) {
        Some(f) => {
            assert forall|t: u64| t != session && #[trigger] w.overlays.contains_key(t) implies !w.overlays[t].path_by_file.contains_key(f) by {
                if w.overlays.contains_key(session) && w.overlays[session].files.contains_key(key) {
                    assert(w.overlays[session].path_by_file.contains_key(f));
                } else {
                    lemma_base_file(w, next, indexes, key);
                    assert(on_disk(w, f));
                }
            }
        },
        None => {},
    }
}

/// The file number that is next to be given once the session's overlay is in step.
pub open spec fn next_after(w: WorldView, session: u64, indexes: Seq<usize>, files: Seq<PreparedView>, force: bool, next: u32) -> int {
    if to_sync(w, session, indexes, files, force) {
        next + given(w, session, wanted(w.base, indexes, files))
    } else {
        next as int
    }
}

/// There are numbers for the files that the session's overlay is to hold.
pub open spec fn room_for(w: WorldView, session: u64, indexes: Seq<usize>, files: Seq<PreparedView>, force: bool, next: u32) -> bool {
    next_after(w, session, indexes, files, force, next) <= crate::file_ids::MAX_ANALYZED_FILE_ID + 1
}

proof fn lemma_new_numbers(w: WorldView, session: u64, indexes: Seq<usize>, files: Seq<PreparedView>, next: u32)
    requires
        w.wf(next),
        next + given(w, session, files) <= u32::MAX,
    ensures
        numbers_below(new_overlay(w, session, indexes, files, next), (next + given(w, session, files)) as u32),
        given(w, session, files) >= 0,
{
    let old = overlay_or_empty(w, session);
    lemma_fresh_total(old, files);
    lemma_built(old, indexes, files, next);
    let bare = built(old, indexes, files, next);
    assert forall|f: u32| #[trigger] new_overlay(w, session, indexes, files, next).path_by_file.contains_key(f) implies f < next
        + given(w, session, files) by {
        assert(bare.path_by_file.contains_key(f));
    }
}

/// Keeping one session's overlay in step with its files leaves the world well-formed.
pub proof fn law_sync_keeps_the_world_sound(
    w: WorldView,
    session: u64,
    indexes: Seq<usize>,
    files: Seq<PreparedView>,
    force: bool,
    next: u32,
)
    requires
        w.wf(next),
        known_roots(w.base, files),
        room_for(w, session, indexes, files, force, next),
    ensures
        synced(w, session, indexes, files, force, next).wf(next_after(w, session, indexes, files, force, next) as u32),
{
    if to_sync(w, session, indexes, files, force) {
        let kept = wanted(w.base, indexes, files);
        let after = (next + given(w, session, kept)) as u32;
        lemma_new_numbers(w, session, indexes, kept, next);
        lemma_staged(w, session, indexes, kept, next, after);
        lemma_rebuilt(staged(w, session, indexes, kept, next), sync_removed(w, session, indexes, files), after);
    }
}

/// Keeping one session's overlay in step with its files leaves the texts of the files on disk.
pub proof fn lemma_disk_texts_kept(
    w: WorldView,
    session: u64,
    indexes: Seq<usize>,
    files: Seq<PreparedView>,
    force: bool,
    next: u32,
    f: u32,
)
    requires
        w.wf(next),
        known_roots(w.base, files),
        room_for(w, session, indexes, files, force, next),
        f < next,
        forall|t: u64| #[trigger] w.overlays.contains_key(t) ==> !w.overlays[t].path_by_file.contains_key(f),
    ensures
        synced(w, session, indexes, files, force, next).base.inputs.texts[f] == w.base.inputs.texts[f],
{
    if to_sync(w, session, indexes, files, force) {
        let r = synced(w, session, indexes, files, force, next);
        let kept = wanted(w.base, indexes, files);
        let after = (next + given(w, session, kept)) as u32;
        let old = overlay_or_empty(w, session);
        lemma_new_numbers(w, session, indexes, kept, next);
        lemma_staged(w, session, indexes, kept, next, after);
        let s = staged(w, session, indexes, kept, next);
        let removed = sync_removed(w, session, indexes, files);
        lemma_rebuilt(s, removed, after);
        lemma_all_dropped(old, kept);
        assert(!removed.contains(f)) by {
            if removed.contains(f) {
                let j = removed.index_of(f);
                assert(old.path_by_file.contains_key(removed[j]));
                assert(w.overlays.contains_key(session));
                assert(w.overlays[session].path_by_file.contains_key(f));
            }
        }
        lemma_fresh_total(old, kept);
        lemma_built(old, indexes, kept, next);
        assert forall|t: u64| #[trigger] s.overlays.contains_key(t) && s.overlays[t].path_by_file.contains_key(f) implies s.applied.contains(f) by {
            if t == session {
                assert(built(old, indexes, kept, next).path_by_file.contains_key(f));
                assert(w.overlays.contains_key(session));
            } else {
                assert(w.overlays.contains_key(t));
            }
        }
        assert(r.base.inputs.texts[f] == s.base.inputs.texts[f]);
    }
}

/// No session has the number in its overlay.
pub open spec fn in_no_overlay(w: WorldView, f: u32) -> bool {
    forall|t: u64| #[trigger] w.overlays.contains_key(t) ==> !w.overlays[t].path_by_file.contains_key(f)
}

/// Keeping one session's overlay in step with its files leaves the source roots on disk, and the
/// files on disk in their roots.
pub proof fn lemma_disk_roots_synced(
    w: WorldView,
    session: u64,
    indexes: Seq<usize>,
    files: Seq<PreparedView>,
    force: bool,
    next: u32,
)
    requires
        w.wf(next),
        known_roots(w.base, files),
        room_for(w, session, indexes, files, force, next),
    ensures
        ({
            let r = synced(w, session, indexes, files, force, next);
            &&& r.max_root == w.max_root
            &&& r.file_ids == w.file_ids
            &&& r.base.workspaces == w.base.workspaces
            &&& disk_roots(r) == disk_roots(w)
            &&& forall|f: u32|
                f < next && in_no_overlay(w, f) ==> {
                    &&& #[trigger] r.base.inputs.file_roots.contains_key(f) == w.base.inputs.file_roots.contains_key(f)
                    &&& w.base.inputs.file_roots.contains_key(f) ==> r.base.inputs.file_roots[f] == w.base.inputs.file_roots[f]
                }
            &&& forall|f: u32|
                #[trigger] r.base.inputs.file_roots.contains_key(f) && !w.base.inputs.file_roots.contains_key(f) ==> exists|i: int|
                    0 <= i < r.base.inputs.roots.len() && (#[trigger] r.base.inputs.roots[i]).files.contains_key(f)
        }),
{
    if to_sync(w, session, indexes, files, force) {
        let r = synced(w, session, indexes, files, force, next);
        let kept = wanted(w.base, indexes, files);
        let after = (next + given(w, session, kept)) as u32;
        lemma_new_numbers(w, session, indexes, kept, next);
        lemma_staged(w, session, indexes, kept, next, after);
        let s = staged(w, session, indexes, kept, next);
        let removed = sync_removed(w, session, indexes, files);
        lemma_rebuilt(s, removed, after);
        lemma_disk_roots_kept(s, removed, after);
        assert(disk_roots(s) == disk_roots(w));
        assert(disk_roots(r) =~= disk_roots(w)) by {
            assert forall|i: int| 0 <= i < disk_roots(w).len() implies disk_roots(r)[i] == disk_roots(w)[i] by {
                assert(r.base.inputs.roots[i] == w.base.inputs.roots[i]);
            }
        }
        let old = overlay_or_empty(w, session);
        lemma_fresh_total(old, kept);
        lemma_built(old, indexes, kept, next);
        assert forall|f: u32| f < next && in_no_overlay(w, f) implies {
            &&& #[trigger] r.base.inputs.file_roots.contains_key(f) == w.base.inputs.file_roots.contains_key(f)
            &&& w.base.inputs.file_roots.contains_key(f) ==> r.base.inputs.file_roots[f] == w.base.inputs.file_roots[f]
        } by {
            assert forall|t: u64| #[trigger] s.overlays.contains_key(t) implies !s.overlays[t].path_by_file.contains_key(f) by {
                if t == session {
                    if s.overlays[t].path_by_file.contains_key(f) {
                        assert(built(old, indexes, kept, next).path_by_file.contains_key(f));
                        assert(w.overlays.contains_key(session));
                    }
                } else {
                    assert(w.overlays.contains_key(t));
                }
            }
            assert(r == rebuilt(s, removed));
            assert(rebuilt(s, removed).base.inputs.file_roots.contains_key(f) == s.base.inputs.file_roots.contains_key(f));
        }
    }
}

/// A session's unsaved edits are its own: keeping its overlay in step with its open files changes
/// nothing of what any other session finds under any path.
pub proof fn law_edits_are_private(
    w: WorldView,
    session: u64,
    indexes: Seq<usize>,
    files: Seq<PreparedView>,
    force: bool,
    next: u32,
    other: u64,
    other_indexes: Seq<usize>,
    key: Seq<char>,
)
    requires
        w.wf(next),
        known_roots(w.base, files),
        room_for(w, session, indexes, files, force, next),
        other != session,
    ensures
        seen_file(synced(w, session, indexes, files, force, next), other, other_indexes, key) == seen_file(
            w,
            other,
            other_indexes,
            key,
        ),
        seen_text(synced(w, session, indexes, files, force, next), other, other_indexes, key) == seen_text(
            w,
            other,
            other_indexes,
            key,
        ),
{
    let r = synced(w, session, indexes, files, force, next);
    if to_sync(w, session, indexes, files, force) {
        let kept = wanted(w.base, indexes, files);
        let after = (next + given(w, session, kept)) as u32;
        lemma_new_numbers(w, session, indexes, kept, next);
        lemma_staged(w, session, indexes, kept, next, after);
        let s = staged(w, session, indexes, kept, next);
        let removed = sync_removed(w, session, indexes, files);
        lemma_rebuilt(s, removed, after);
        let old = overlay_or_empty(w, session);
        lemma_all_dropped(old, kept);
        assert(overlay_of(r, other) == overlay_of(w, other));
        match seen_file(w, other, other_indexes, key) {
            Some(f) => {
                let own = w.overlays.contains_key(other) && w.overlays[other].files.contains_key(key);
                if own {
                    assert(w.overlays[other].path_by_file.contains_key(f));
                } else {
                    lemma_base_file(w, next, other_indexes, key);
                    assert(on_disk(w, f));
                    let i = choose|i: int| 0 <= i < w.base.workspaces.len() && #[trigger] w.base.workspaces[i].files.contains_file(f);
                    assert(w.base.workspaces[i].files.contains_file(f));
                }
                assert(!removed.contains(f)) by {
                    if removed.contains(f) {
                        let j = removed.index_of(f);
                        assert(old.path_by_file.contains_key(removed[j]));
                        assert(w.overlays.contains_key(session));
                        assert(w.overlays[session].path_by_file.contains_key(f));
                        if own {
                            assert(w.overlays[other].path_by_file.contains_key(f));
                        }
                    }
                }
                assert forall|t: u64| #[trigger] s.overlays.contains_key(t) && s.overlays[t].path_by_file.contains_key(f) implies s.applied.contains(f) by {
                    if own {
                        assert(w.overlays.contains_key(other) && w.overlays[other].path_by_file.contains_key(f));
                        assert(s.applied.contains(f));
                    } else {
                        let i = choose|i: int|
                            0 <= i < w.base.workspaces.len() && #[trigger] w.base.workspaces[i].files.contains_file(f);
                        assert(s.base.workspaces[i].files.contains_file(f));
                        assert(!s.overlays[t].path_by_file.contains_key(f));
                    }
                }
                assert(r.base.inputs.texts[f] == s.base.inputs.texts[f]);
            },
            None => {},
        }
    }
}

/// A session sees its own edits: once its overlay is in step, every file that it has open shows the
/// text that it has there. Of files without an overlay this holds because they show the same text
/// on disk, where the open file stands for the file found under its path.
pub proof fn law_session_sees_its_edits(
    w: WorldView,
    session: u64,
    indexes: Seq<usize>,
    files: Seq<PreparedView>,
    force: bool,
    next: u32,
    key: Seq<char>,
)
    requires
        w.wf(next),
        known_roots(w.base, files),
        room_for(w, session, indexes, files, force, next),
        by_path(files).contains_key(key),
        files[by_path(files)[key] as int].is_open,
        files[by_path(files)[key] as int].path.key == key,
        files[by_path(files)[key] as int].base_file is Some ==> files[by_path(files)[key] as int].base_file == base_file(
            w.base.workspaces,
            indexes,
            key,
        ),
    ensures
        seen_text(synced(w, session, indexes, files, force, next), session, indexes, key) == Some(
            files[by_path(files)[key] as int].text,
        ),
{
    let r = synced(w, session, indexes, files, force, next);
    let at = by_path(files)[key] as int;
    lemma_by_path(files);
    let file = files[at];
    let needed = overlay_needed(w.base, indexes, files);
    if !needed {
        assert(!(files[at].is_open && shows_other(w.base, indexes, files[at])));
        assert(file.base_file is Some);
    }
    if to_sync(w, session, indexes, files, force) {
        let kept = wanted(w.base, indexes, files);
        let after = (next + given(w, session, kept)) as u32;
        let old = overlay_or_empty(w, session);
        lemma_new_numbers(w, session, indexes, kept, next);
        lemma_staged(w, session, indexes, kept, next, after);
        let s = staged(w, session, indexes, kept, next);
        let removed = sync_removed(w, session, indexes, files);
        lemma_rebuilt(s, removed, after);
        lemma_fresh_total(old, kept);
        lemma_built(old, indexes, kept, next);
        let new = s.overlays[session];
        assert(r.overlays.contains_key(session) && r.overlays[session] == new);
        if needed {
            assert(new.files.contains_key(key));
            let number = new.files[key].overlay_file;
            assert(r.overlays[session].path_by_file.contains_key(number));
            assert(r.applied.contains(number));
        } else {
            assert(!new.files.contains_key(key));
            let f = file.base_file->0;
            lemma_base_file(w, next, indexes, key);
            assert(on_disk(w, f));
            let i = choose|i: int| 0 <= i < w.base.workspaces.len() && #[trigger] w.base.workspaces[i].files.contains_file(f);
            assert(w.base.workspaces[i].files.contains_file(f));
            lemma_all_dropped(old, kept);
            assert(!removed.contains(f)) by {
                if removed.contains(f) {
                    let j = removed.index_of(f);
                    assert(old.path_by_file.contains_key(removed[j]));
                    assert(w.overlays.contains_key(session));
                    assert(w.overlays[session].path_by_file.contains_key(f));
                }
            }
            assert forall|t: u64| #[trigger] s.overlays.contains_key(t) && s.overlays[t].path_by_file.contains_key(f) implies s.applied.contains(f) by {
                assert(s.base.workspaces[i].files.contains_file(f));
                assert(!s.overlays[t].path_by_file.contains_key(f));
            }
            assert(r.base.inputs.texts[f] == s.base.inputs.texts[f]);
        }
    } else {
        if needed {
            let overlay = w.overlays[session];
            assert(w.overlays.contains_key(session));
            assert(!entry_differs(overlay, files[at]));
            assert(overlay.files.contains_key(key) && overlay.files[key].text == file.text);
            let number = overlay.files[key].overlay_file;
            assert(w.overlays[session].path_by_file.contains_key(number));
            assert(w.applied.contains(number));
        } else if w.overlays.contains_key(session) {
            let overlay = w.overlays[session];
            assert(overlay.files.dom().len() == 0);
            if overlay.files.contains_key(key) {
                assert(overlay.files.dom().contains(key));
                assert(overlay.files.dom().finite());
                overlay.files.dom().lemma_len0_is_empty();
            }
        }
    }
}

/// Files that a session does not have open, and that nothing it has open touches, show the disk.
pub proof fn law_unedited_files_show_the_disk(w: WorldView, session: u64, indexes: Seq<usize>, key: Seq<char>)
    requires
        overlay_of(w, session) matches Some(overlay) ==> !overlay.files.contains_key(key),
    ensures
        seen_text(w, session, indexes, key) == (match base_file(w.base.workspaces, indexes, key) {
            Some(file) => Some(w.base.inputs.texts[file]),
            None => None,
        }),
{
}

/// Saved edits leave the overlay: when every open file shows what is on disk, the session has no
/// overlay files once its overlay is in step.
pub proof fn law_saved_edits_leave_the_overlay(
    w: WorldView,
    session: u64,
    indexes: Seq<usize>,
    files: Seq<PreparedView>,
    force: bool,
    next: u32,
)
    requires
        w.wf(next),
        forall|i: int|
            0 <= i < files.len() && (#[trigger] files[i]).is_open ==> {
                &&& files[i].base_file is Some
                &&& w.base.inputs.texts[files[i].base_file->0] == files[i].text
                &&& base_line_endings(w.base.workspaces, indexes, files[i].base_file->0) == Some(files[i].line_endings)
            },
    ensures
        overlay_of(synced(w, session, indexes, files, force, next), session) matches Some(overlay) ==> overlay.files.dom()
            == Set::<Seq<char>>::empty(),
{
    assert(!overlay_needed(w.base, indexes, files));
    if to_sync(w, session, indexes, files, force) {
        let kept = wanted(w.base, indexes, files);
        let old = overlay_or_empty(w, session);
        lemma_fresh_total(old, kept);
        lemma_built(old, indexes, kept, next);
        assert(built(old, indexes, kept, next).files.dom() =~= Set::<Seq<char>>::empty());
    } else if w.overlays.contains_key(session) {
        assert(w.overlays[session].files.dom().finite());
        w.overlays[session].files.dom().lemma_len0_is_empty();
    }
}

} // verus!
