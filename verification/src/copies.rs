//! What a session sees of the files that it does not have open: the disk.
use crate::base::base_file;
use crate::open_files::{files_matter, open_fits, open_synced, planned, PlanView};
use crate::overlay::{entry_differs, overlay_changed, overlay_needed, OverlayFileView};
use crate::overlay_build::{by_path, lemma_by_path};
use crate::overlay_files::{lemma_prepared_known, opened, prepared, OpenFileView, PreparedView};
use crate::own_files::{lemma_prepared_paths, lemma_prepared_unopened, roots_agree};
use crate::privacy::{lemma_base_file, lemma_disk_texts_kept, seen_text};
use crate::saving::{lemma_overlay_counted, lemma_paths_counted, lemma_remade, lemma_remade_counted};
use crate::settled::paths_differ;
use crate::sync::{overlay_of, overlay_or_empty, synced, wanted};
use crate::update::{can_update, law_typing_leaves_other_files, law_typing_leaves_the_disk, updated_world};
use crate::world::WorldView;
use vstd::prelude::*;

verus! {

/// The text on disk of a path that is in view.
pub open spec fn disk_text(w: WorldView, indexes: Seq<usize>, key: Seq<char>) -> Option<Seq<char>> {
    match base_file(w.base.workspaces, indexes, key) {
        Some(f) => Some(w.base.inputs.texts[f]),
        None => None,
    }
}

proof fn lemma_unopened_keys(files: Seq<OpenFileView>, key: Seq<char>)
    requires
        !opened(files).contains_key(key),
    ensures
        forall|i: int| 0 <= i < files.len() ==> (#[trigger] files[i]).path.key != key,
    decreases files.len(),
{
    if files.len() > 0 {
        let front = files.drop_last();
        lemma_unopened_keys(front, key);
        assert forall|i: int| 0 <= i < files.len() implies (#[trigger] files[i]).path.key != key by {
            if i < front.len() {
                assert(front[i] == files[i]);
            }
        }
    }
}

/// An overlay that is as the files ask for it holds their paths and no others.
proof fn lemma_settled_paths(w: WorldView, session: u64, indexes: Seq<usize>, files: Seq<PreparedView>, next: u32)
    requires
        w.wf(next),
        paths_differ(files),
        overlay_needed(w.base, indexes, files),
        !overlay_changed(w.base, indexes, overlay_of(w, session), files),
    ensures
        overlay_or_empty(w, session).files.dom() == by_path(files).dom(),
        files.len() <= u32::MAX,
{
    let overlay = overlay_of(w, session)->0;
    assert(w.overlays.contains_key(session));
    lemma_overlay_counted(overlay, next);
    lemma_paths_counted(files);
    assert forall|k: Seq<char>| by_path(files).dom().contains(k) implies overlay.files.dom().contains(k) by {
        let i = choose|i: int| 0 <= i < files.len() && (#[trigger] files[i]).path.key == k;
        assert(!entry_differs(overlay, files[i]));
    }
    vstd::set_lib::lemma_subset_equality(by_path(files).dom(), overlay.files.dom());
}

/// Keeping a session's open files in step leaves the disk: every path has the text on disk that it had.
pub proof fn law_open_files_leave_the_disk(
    w: WorldView,
    session: u64,
    indexes: Seq<usize>,
    files: Seq<OpenFileView>,
    force: bool,
    next: u32,
    view: Seq<usize>,
    key: Seq<char>,
)
    requires
        w.wf(next),
        open_fits(w, session, indexes, files, force, next),
    ensures
        disk_text(open_synced(w, session, indexes, files, force, next), view, key) == disk_text(w, view, key),
{
    let needed = prepared(w.base, indexes, files);
    lemma_prepared_known(w.base, indexes, files);
    match planned(w, session, indexes, files, force) {
        PlanView::Update => {
            assert(w.overlays.contains_key(session));
            law_typing_leaves_the_disk(w, session, files, next, view, key);
        },
        PlanView::Rebuild(list) => match base_file(w.base.workspaces, view, key) {
            Some(f) => {
                lemma_base_file(w, next, view, key);
                let i = choose|i: int| 0 <= i < w.base.workspaces.len() && #[trigger] w.base.workspaces[i].files.contains_file(f);
                assert(w.base.workspaces[i].files.contains_file(f));
                lemma_disk_texts_kept(w, session, indexes, needed, force, next, f);
            },
            None => {},
        },
        PlanView::Keep => {},
    }
}

/// A session sees the disk where it has nothing open: once its overlay is in step, a path that its
/// workspaces have and that it does not have open shows the text on disk, also where the overlay holds a
/// copy of the file. Where the overlay only takes in what was typed, the path shows what it showed.
pub proof fn law_unopened_files_show_the_disk(
    w: WorldView,
    session: u64,
    indexes: Seq<usize>,
    files: Seq<OpenFileView>,
    force: bool,
    next: u32,
    key: Seq<char>,
)
    requires
        w.wf(next),
        open_fits(w, session, indexes, files, force, next),
        files.len() <= usize::MAX,
        !opened(files).contains_key(key),
        base_file(w.base.workspaces, indexes, key) is Some,
        roots_agree(w.base, indexes, key),
        !force && can_update(w, session, indexes, files) ==> seen_text(w, session, indexes, key) == disk_text(w, indexes, key),
    ensures
        seen_text(open_synced(w, session, indexes, files, force, next), session, indexes, key) == disk_text(w, indexes, key),
{
    let needed = prepared(w.base, indexes, files);
    let f = base_file(w.base.workspaces, indexes, key)->0;
    let text = w.base.inputs.texts[f];
    let r = open_synced(w, session, indexes, files, force, next);
    lemma_prepared_known(w.base, indexes, files);
    lemma_prepared_paths(w.base, indexes, files, key);
    match planned(w, session, indexes, files, force) {
        PlanView::Update => {
            lemma_unopened_keys(files, key);
            assert(w.overlays.contains_key(session));
            law_typing_leaves_other_files(w, session, files, next, indexes, key);
            assert(r == updated_world(w, session, files));
        },
        PlanView::Rebuild(list) => {
            assert(list == needed);
            if wanted(w.base, indexes, needed) == needed {
                lemma_remade_counted(w, session, needed, force, next, indexes);
                lemma_prepared_unopened(w.base, indexes, files, key);
            } else {
                assert(wanted(w.base, indexes, needed) =~= Seq::empty());
            }
            lemma_remade(w, session, needed, force, next, indexes, key, indexes, text);
            assert(r == synced(w, session, indexes, needed, force, next));
        },
        PlanView::Keep => {
            let overlay = overlay_or_empty(w, session);
            if overlay.files.contains_key(key) {
                assert(overlay.files != Map::<Seq<char>, OverlayFileView>::empty());
                assert(files_matter(w, session, indexes, files));
                assert(w.overlays.contains_key(session));
                if !overlay_needed(w.base, indexes, needed) {
                    assert(overlay.files.dom().contains(key));
                    assert(overlay.files.dom().len() == 0);
                }
                lemma_settled_paths(w, session, indexes, needed, next);
                lemma_prepared_unopened(w.base, indexes, files, key);
                lemma_paths_counted(needed);
                lemma_by_path(needed);
                assert(by_path(needed).contains_key(key));
                let i = by_path(needed)[key] as int;
                assert(!entry_differs(overlay, needed[i]));
                crate::settled::lemma_distinct(needed);
                let number = overlay.files[key].overlay_file;
                assert(w.overlays[session].path_by_file.contains_key(number) && w.applied.contains(number));
            }
        },
    }
}

} // verus!
