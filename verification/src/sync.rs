//! Keeping the sessions' overlays in step with the files that the sessions have open.
use crate::base::BaseView;
use crate::file_ids::SharedFileIds;
use crate::overlay::{
    needs_overlay, overlaid_crates, overlay_changed, overlay_needed, populate_overlay_crates,
    session_overlay_changed, ActiveSessionOverlay, OverlayView,
};
use crate::overlay_build::{
    all_dropped, build_overlay, built, by_path, fresh_total, lemma_all_dropped, lemma_built, lemma_by_path,
    lemma_still_applied, numbers_below, still_applied,
};
use crate::overlay_files::{known_bases, known_roots, prepared_views, PreparedOverlayFile, PreparedView};
use crate::rebuild::{is_change, rebuilt, InputChange};
use crate::world::{SharedWorld, WorldView};
use vstd::prelude::*;

verus! {

/// What keeping an overlay in step has done: whether anything changed, which overlay files are
/// gone, and what the database is to be told.
#[derive(Debug)]
pub struct SharedOverlaySync {
    pub changed: bool,
    pub removed_files: Vec<u32>,
    pub change: Option<InputChange>,
}

pub open spec fn overlay_of(w: WorldView, session: u64) -> Option<OverlayView> {
    if w.overlays.contains_key(session) {
        Some(w.overlays[session])
    } else {
        None
    }
}

pub open spec fn overlay_or_empty(w: WorldView, session: u64) -> OverlayView {
    match overlay_of(w, session) {
        Some(overlay) => overlay,
        None => OverlayView::empty(),
    }
}

/// The files that go into the overlay: all or none.
pub open spec fn wanted(base: BaseView, indexes: Seq<usize>, files: Seq<PreparedView>) -> Seq<PreparedView> {
    if overlay_needed(base, indexes, files) {
        files
    } else {
        Seq::empty()
    }
}

/// The new overlay of a session, with its crates.
pub open spec fn new_overlay(w: WorldView, session: u64, indexes: Seq<usize>, files: Seq<PreparedView>, next: u32) -> OverlayView {
    let overlay = built(overlay_or_empty(w, session), indexes, files, next);
    OverlayView { crates: overlaid_crates(w.base, overlay, w.base.crates.len() as int), ..overlay }
}

/// The world with the session's new overlay, before the database is brought up to date.
pub open spec fn staged(w: WorldView, session: u64, indexes: Seq<usize>, files: Seq<PreparedView>, next: u32) -> WorldView {
    WorldView {
        overlays: w.overlays.insert(session, new_overlay(w, session, indexes, files, next)),
        applied: still_applied(w.applied, overlay_or_empty(w, session), files),
        ..w
    }
}

/// Whether the session's overlay is made anew.
pub open spec fn to_sync(w: WorldView, session: u64, indexes: Seq<usize>, files: Seq<PreparedView>, force: bool) -> bool {
    force || overlay_changed(w.base, indexes, overlay_of(w, session), files)
}

/// The overlay files that are gone once the session's overlay is in step.
pub open spec fn sync_removed(w: WorldView, session: u64, indexes: Seq<usize>, files: Seq<PreparedView>) -> Seq<u32> {
    all_dropped(overlay_or_empty(w, session), wanted(w.base, indexes, files))
}

/// The world once the session's overlay is in step with the given files.
pub open spec fn synced(
    w: WorldView,
    session: u64,
    indexes: Seq<usize>,
    files: Seq<PreparedView>,
    force: bool,
    next: u32,
) -> WorldView {
    if to_sync(w, session, indexes, files, force) {
        rebuilt(staged(w, session, indexes, wanted(w.base, indexes, files), next), sync_removed(w, session, indexes, files))
    } else {
        w
    }
}

/// The number of file numbers given while the session's overlay is made anew.
pub open spec fn given(w: WorldView, session: u64, files: Seq<PreparedView>) -> int {
    fresh_total(overlay_or_empty(w, session), files)
}

proof fn lemma_populated(base: BaseView, overlay: OverlayView, n: int)
    requires
        overlay.wf(),
        0 <= n <= base.crates.len(),
    ensures
        (OverlayView { crates: overlaid_crates(base, overlay, n), ..overlay }).wf(),
    decreases n,
{
    if n > 0 {
        lemma_populated(base, overlay, n - 1);
        let before = overlaid_crates(base, overlay, n - 1);
        let r = OverlayView { crates: overlaid_crates(base, overlay, n), ..overlay };
        let s = OverlayView { crates: before, ..overlay };
        assert(s.wf());
        assert forall|c: u32| #[trigger] r.crates.contains_key(c) implies r.path_by_file.contains_key(r.crates[c]) by {
            if c != base.crates[n - 1].id {
                assert(s.crates.contains_key(c));
            } else if before.contains_key(c) {
                assert(s.crates.contains_key(c));
            }
        }
    }
}

/// A session's new overlay leaves the world sound: its numbers are its own.
pub proof fn lemma_staged(w: WorldView, session: u64, indexes: Seq<usize>, files: Seq<PreparedView>, next: u32, after: u32)
    requires
        w.wf(next),
        known_roots(w.base, files),
        next <= after <= crate::file_ids::MAX_ANALYZED_FILE_ID + 1,
        next + given(w, session, files) <= u32::MAX,
        numbers_below(new_overlay(w, session, indexes, files, next), after),
    ensures
        staged(w, session, indexes, files, next).sound(after),
        forall|i: int, s: u64|
            0 <= i < all_dropped(overlay_or_empty(w, session), files).len() && staged(w, session, indexes, files, next).overlays.contains_key(
                s,
            ) ==> !#[trigger] staged(w, session, indexes, files, next).overlays[s].path_by_file.contains_key(
                #[trigger] all_dropped(overlay_or_empty(w, session), files)[i],
            ),
        forall|f: u32, s: u64|
            s != session && #[trigger] w.overlays.contains_key(s) && w.overlays[s].path_by_file.contains_key(f)
                ==> #[trigger] staged(w, session, indexes, files, next).applied.contains(f),
        new_overlay(w, session, indexes, files, next).wf(),
{
    let old = overlay_or_empty(w, session);
    let bare = built(old, indexes, files, next);
    let new = new_overlay(w, session, indexes, files, next);
    let r = staged(w, session, indexes, files, next);
    let m = by_path(files);
    assert(old.wf() && numbers_below(old, next) && old.files.dom().finite() && old.path_by_file.dom().finite());
    lemma_by_path(files);
    lemma_built(old, indexes, files, next);
    lemma_populated(w.base, bare, w.base.crates.len() as int);
    lemma_still_applied(w.applied, old, files);
    lemma_all_dropped(old, files);
    let gone = all_dropped(old, files);
    // Numbers of other sessions and of files on disk are not in the new overlay.
    assert forall|t: u64, f: u32|
        t != session && w.overlays.contains_key(t) && #[trigger] w.overlays[t].path_by_file.contains_key(f) implies !new.path_by_file.contains_key(f) by {
        if new.path_by_file.contains_key(f) {
            assert(bare.path_by_file.contains_key(f));
            assert(f < next);
            assert(old.path_by_file.contains_key(f));
            if w.overlays.contains_key(session) {
                assert(w.overlays[session].path_by_file.contains_key(f));
            }
        }
    }
    assert(crate::world::overlays_sound(r.overlays, after)) by {
        assert(r.overlays.dom() =~= w.overlays.dom().insert(session));
        assert forall|s: u64| #[trigger] r.overlays.contains_key(s) implies {
            &&& r.overlays[s].wf()
            &&& numbers_below(r.overlays[s], after)
            &&& r.overlays[s].files.dom().finite()
            &&& r.overlays[s].path_by_file.dom().finite()
        } by {
            if s != session {
                assert(w.overlays.contains_key(s));
                assert(numbers_below(w.overlays[s], next));
            }
        }
        assert forall|s: u64, t: u64, f: u32|
            s != t && r.overlays.contains_key(s) && r.overlays.contains_key(t) && #[trigger] r.overlays[s].path_by_file.contains_key(f) implies !#[trigger] r.overlays[t].path_by_file.contains_key(
            f,
        ) by {
            if s != session && t != session {
                assert(w.overlays.contains_key(s) && w.overlays.contains_key(t));
                assert(w.overlays[s].path_by_file.contains_key(f));
                assert(!w.overlays[t].path_by_file.contains_key(f));
            } else if s == session {
                assert(w.overlays.contains_key(t));
                if w.overlays[t].path_by_file.contains_key(f) {
                    assert(!new.path_by_file.contains_key(f));
                }
            } else {
                assert(w.overlays.contains_key(s));
                assert(w.overlays[s].path_by_file.contains_key(f));
            }
        }
    }
    assert(crate::world::overlay_roots_known(r.overlays, r.base.inputs.roots.len())) by {
        assert forall|s: u64, k: Seq<char>|
            r.overlays.contains_key(s) && #[trigger] r.overlays[s].files.contains_key(k) implies r.overlays[s].files[k].base_source_root
            < r.base.inputs.roots.len() by {
            if s == session {
                assert(bare.files.contains_key(k));
                assert(m.contains_key(k));
                assert(files[m[k] as int].base_source_root < w.base.inputs.roots.len());
            } else {
                assert(w.overlays.contains_key(s));
                assert(w.overlays[s].files.contains_key(k));
            }
        }
    }
    assert(crate::world::applied_sound(r, after)) by {
        assert forall|f: u32| #[trigger] r.applied.contains(f) implies f < after && r.base.inputs.texts.contains_key(f) by {
            assert(w.applied.contains(f));
        }
        assert forall|s: u64, f: u32|
            r.overlays.contains_key(s) && #[trigger] r.overlays[s].path_by_file.contains_key(f) && r.applied.contains(f) implies r.base.inputs.texts[f]
            == r.overlays[s].files[r.overlays[s].path_by_file[f]].text by {
            assert(w.applied.contains(f));
            if s == session {
                assert(bare.path_by_file.contains_key(f));
                assert(f < next);
                assert(old.path_by_file.contains_key(f));
                let k = bare.path_by_file[f];
                assert(bare.files.contains_key(k) && bare.files[k].overlay_file == f);
                assert(old.files.contains_key(k)) by {
                    if !old.files.contains_key(k) {
                        assert(bare.files[k].overlay_file >= next);
                    }
                }
                assert(old.files[k].overlay_file == f);
                assert(old.path_by_file[f] == k);
                assert(m.contains_key(k));
                assert(bare.files[k].text == files[m[k] as int].text);
                assert(w.overlays.contains_key(session));
                assert(w.overlays[session].path_by_file.contains_key(f) && w.applied.contains(f));
            } else {
                assert(w.overlays.contains_key(s));
                assert(w.overlays[s].path_by_file.contains_key(f) && w.applied.contains(f));
            }
        }
    }
    assert(crate::world::disk_numbers_apart(r, after)) by {
        assert forall|i: int, f: u32, s: u64|
            0 <= i < r.base.workspaces.len() && #[trigger] r.base.workspaces[i].files.contains_file(f) && r.overlays.contains_key(s) implies !#[trigger] r.overlays[s].path_by_file.contains_key(
            f,
        ) by {
            assert(w.base.workspaces[i].files.contains_file(f));
            assert(f < next);
            if s == session {
                if new.path_by_file.contains_key(f) {
                    assert(bare.path_by_file.contains_key(f));
                    assert(old.path_by_file.contains_key(f));
                    assert(w.overlays.contains_key(session));
                    assert(w.overlays[session].path_by_file.contains_key(f));
                }
            } else {
                assert(w.overlays.contains_key(s));
                assert(!w.overlays[s].path_by_file.contains_key(f));
            }
        }
        assert forall|i: int, f: u32|
            0 <= i < r.base.workspaces.len() && #[trigger] r.base.workspaces[i].files.contains_file(f) implies f < after by {
            assert(w.base.workspaces[i].files.contains_file(f));
        }
    }
    crate::world::lemma_listed_later(w.file_ids, w.base.inputs.roots, next, after);
    assert forall|i: int, s: u64| 0 <= i < gone.len() && r.overlays.contains_key(s) implies !#[trigger] r.overlays[s].path_by_file.contains_key(
        #[trigger] gone[i],
    ) by {
        let f = gone[i];
        assert(old.path_by_file.contains_key(f) && !m.contains_key(old.path_by_file[f]));
        assert(w.overlays.contains_key(session));
        assert(w.overlays[session].path_by_file.contains_key(f));
        if s == session {
            if new.path_by_file.contains_key(f) {
                let k = bare.path_by_file[f];
                assert(bare.path_by_file.contains_key(f));
                assert(bare.files.contains_key(k) && bare.files[k].overlay_file == f);
                assert(m.contains_key(k));
                assert(f < next);
                assert(old.files.contains_key(k));
                assert(old.path_by_file[f] == k);
            }
        } else {
            assert(w.overlays.contains_key(s));
            assert(!w.overlays[s].path_by_file.contains_key(f));
        }
    }
    assert forall|f: u32, s: u64|
        s != session && #[trigger] w.overlays.contains_key(s) && w.overlays[s].path_by_file.contains_key(f) implies #[trigger] r.applied.contains(f) by {
        assert(w.overlays[s].path_by_file.contains_key(f));
        assert(w.applied.contains(f));
        if old.path_by_file.contains_key(f) {
            assert(w.overlays.contains_key(session));
            assert(w.overlays[session].path_by_file.contains_key(f));
        }
    }
}

/// What is told of an overlay that was made anew for some files.
pub open spec fn is_new_overlay(
    sync: SharedOverlaySync,
    w: WorldView,
    session: u64,
    indexes: Seq<usize>,
    files: Seq<PreparedView>,
    next: u32,
) -> bool {
    &&& sync.changed
    &&& sync.removed_files@ == sync_removed(w, session, indexes, files)
    &&& sync.change is Some
    &&& is_change(sync.change->0, staged(w, session, indexes, wanted(w.base, indexes, files), next), sync.removed_files@)
}

impl SharedWorld {
    /// Makes the session's overlay anew where the files it needs ask for another one, or where that
    /// is demanded. An overlay that would show nothing else than the files on disk is emptied.
    pub fn sync_session_overlay(
        &mut self,
        session_id: u64,
        workspaces: &Vec<usize>,
        files: &Vec<PreparedOverlayFile>,
        force_rebuild: bool,
        ids: &mut SharedFileIds,
    ) -> (r: SharedOverlaySync)
        requires
            old(self)@.wf(old(ids).next),
            known_bases(old(self)@.base, prepared_views(files@)),
            known_roots(old(self)@.base, prepared_views(files@)),
            to_sync(old(self)@, session_id, workspaces@, prepared_views(files@), force_rebuild) ==> given(
                old(self)@,
                session_id,
                wanted(old(self)@.base, workspaces@, prepared_views(files@)),
            ) <= old(ids).left(),
        ensures
            final(self)@ == synced(
                old(self)@,
                session_id,
                workspaces@,
                prepared_views(files@),
                force_rebuild,
                old(ids).next,
            ),
            final(self)@.wf(final(ids).next),
            r.changed == to_sync(old(self)@, session_id, workspaces@, prepared_views(files@), force_rebuild),
            r.changed ==> final(ids).next == old(ids).next + given(
                old(self)@,
                session_id,
                wanted(old(self)@.base, workspaces@, prepared_views(files@)),
            ),
            r.changed ==> is_new_overlay(r, old(self)@, session_id, workspaces@, prepared_views(files@), old(ids).next),
            !r.changed ==> r.removed_files@.len() == 0 && r.change is None && *final(ids) == *old(ids),
            old(ids).next <= final(ids).next,
    {
        let ghost w = self@;
        let ghost views = prepared_views(files@);
        let ghost start = ids.next;
        let current = self.overlays.get(&session_id);
        proof {
            assert(overlay_of(w, session_id) == (match current {
                Some(o) => Some(o@),
                None => None,
            }));
        }
        if !force_rebuild && !session_overlay_changed(&self.base, workspaces, current, files) {
            return SharedOverlaySync { changed: false, removed_files: Vec::new(), change: None };
        }
        let needed = needs_overlay(&self.base, workspaces, files);
        let ghost kept = wanted(w.base, workspaces@, views);
        let none: Vec<PreparedOverlayFile> = Vec::new();
        proof {
            assert(prepared_views(none@) =~= Seq::empty());
        }
        let old_overlay = match self.overlays.remove(&session_id) {
            Some(overlay) => overlay,
            None => ActiveSessionOverlay::empty(),
        };
        proof {
            assert(old_overlay@ == overlay_or_empty(w, session_id));
            assert(self@.overlays =~= w.overlays.remove(session_id));
        }
        let chosen = if needed {
            files
        } else {
            &none
        };
        proof {
            assert(prepared_views(chosen@) == kept);
        }
        let (overlay, removed) = build_overlay(
            &old_overlay,
            workspaces,
            chosen,
            ids,
            &mut self.applied_overlay_files,
        );
        let mut overlay = overlay;
        populate_overlay_crates(&self.base, &mut overlay);
        let ghost new = new_overlay(w, session_id, workspaces@, kept, start);
        proof {
            assert(overlay@ == new);
        }
        self.overlays.insert(session_id, overlay);
        proof {
            assert(self@.overlays =~= w.overlays.insert(session_id, new));
            assert(self@ =~= staged(w, session_id, workspaces@, kept, start));
            lemma_staged(w, session_id, workspaces@, kept, start, ids.next);
        }
        let change = self.rebuild_overlay_inputs(&removed, ids);
        SharedOverlaySync { changed: true, removed_files: removed, change: Some(change) }
    }
}

} // verus!
