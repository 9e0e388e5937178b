//! An overlay that is in step stays as it is.
use crate::overlay::{entry_differs, open_count, overlay_changed, overlay_needed, shows_other};
use crate::overlay_build::{built, by_path, lemma_built, lemma_by_path, lemma_fresh_total};
use crate::overlay_files::{known_roots, PreparedView};
use crate::own_files::has_path;
use crate::privacy::{law_sync_keeps_the_world_sound, lemma_disk_texts_kept, next_after, room_for};
use crate::sync::{new_overlay, overlay_of, overlay_or_empty, synced, to_sync, wanted};
use crate::world::WorldView;
use vstd::prelude::*;

verus! {

/// Every path is there once.
pub open spec fn paths_differ(files: Seq<PreparedView>) -> bool {
    forall|i: int, j: int| 0 <= i < j < files.len() ==> (#[trigger] files[i]).path.key != (#[trigger] files[j]).path.key
}

/// The files that open files stand for have numbers of files on disk.
pub open spec fn bases_on_disk(w: WorldView, files: Seq<PreparedView>) -> bool {
    forall|i: int|
        0 <= i < files.len() && (#[trigger] files[i]).is_open ==> (files[i].base_file matches Some(f) ==> has_path(w.file_ids, f))
}

/// The paths of the open files.
pub open spec fn open_paths(files: Seq<PreparedView>) -> Set<Seq<char>>
    decreases files.len(),
{
    if files.len() == 0 {
        Set::empty()
    } else if files.last().is_open {
        open_paths(files.drop_last()).insert(files.last().path.key)
    } else {
        open_paths(files.drop_last())
    }
}

pub proof fn lemma_distinct(files: Seq<PreparedView>)
    requires
        paths_differ(files),
        files.len() <= usize::MAX,
    ensures
        by_path(files).dom().finite(),
        by_path(files).dom().len() == files.len(),
        forall|i: int|
            0 <= i < files.len() ==> by_path(files).contains_key((#[trigger] files[i]).path.key) && by_path(files)[files[i].path.key] == i,
        forall|k: Seq<char>|
            #[trigger] by_path(files).contains_key(k) ==> by_path(files)[k] < files.len() && files[by_path(files)[k] as int].path.key == k,
        open_paths(files).finite(),
        open_paths(files).len() == open_count(files),
        forall|k: Seq<char>|
            #[trigger] open_paths(files).contains(k) <==> by_path(files).contains_key(k) && files[by_path(files)[k] as int].is_open,
    decreases files.len(),
{
    if files.len() > 0 {
        let front = files.drop_last();
        let last = files[files.len() - 1];
        assert forall|i: int, j: int| 0 <= i < j < front.len() implies (#[trigger] front[i]).path.key != (#[trigger] front[j]).path.key by {
            assert(files[i].path.key != files[j].path.key);
        }
        lemma_distinct(front);
        let before = by_path(front);
        let m = by_path(files);
        assert(!before.contains_key(last.path.key)) by {
            if before.contains_key(last.path.key) {
                let i = before[last.path.key] as int;
                assert(front[i] == files[i]);
                assert(files[i].path.key != files[files.len() - 1].path.key);
            }
        }
        assert(m.dom() =~= before.dom().insert(last.path.key));
        assert forall|i: int| 0 <= i < files.len() implies m.contains_key((#[trigger] files[i]).path.key) && m[files[i].path.key] == i by {
            if i < front.len() {
                assert(front[i] == files[i]);
                assert(files[i].path.key != files[files.len() - 1].path.key);
            }
        }
        assert forall|k: Seq<char>| #[trigger] m.contains_key(k) implies m[k] < files.len() && files[m[k] as int].path.key == k by {
            if k != last.path.key {
                assert(before.contains_key(k));
                assert(front[before[k] as int] == files[before[k] as int]);
            }
        }
        assert(!open_paths(front).contains(last.path.key));
        assert forall|k: Seq<char>| #[trigger] open_paths(files).contains(k) <==> m.contains_key(k) && files[m[k] as int].is_open by {
            if k != last.path.key {
                assert(open_paths(front).contains(k) <==> before.contains_key(k) && front[before[k] as int].is_open);
                if before.contains_key(k) {
                    assert(front[before[k] as int] == files[before[k] as int]);
                }
            }
        }
    } else {
        assert(by_path(files).dom() =~= Set::empty());
    }
}

/// Keeping an overlay in step a second time changes nothing: once it is in step with the files, the
/// same files ask for no new one.
pub proof fn law_overlay_in_step_stays(
    w: WorldView,
    session: u64,
    indexes: Seq<usize>,
    files: Seq<PreparedView>,
    force: bool,
    next: u32,
)
    requires
        w.wf(next),
        known_roots(w.base, files),
        room_for(w, session, indexes, files, force, next),
        bases_on_disk(w, files),
        paths_differ(files),
        files.len() <= usize::MAX,
    ensures
        ({
            let once = synced(w, session, indexes, files, force, next);
            let after = next_after(w, session, indexes, files, force, next) as u32;
            &&& !to_sync(once, session, indexes, files, false)
            &&& synced(once, session, indexes, files, false, after) == once
            &&& next_after(once, session, indexes, files, false, after) == after
        }),
{
    let r = synced(w, session, indexes, files, force, next);
    if to_sync(w, session, indexes, files, force) {
        law_sync_keeps_the_world_sound(w, session, indexes, files, force, next);
        assert(r.base.workspaces == w.base.workspaces);
        assert forall|i: int| 0 <= i < files.len() && (#[trigger] files[i]).is_open implies shows_other(r.base, indexes, files[i])
            == shows_other(w.base, indexes, files[i]) by {
            match files[i].base_file {
                Some(f) => {
                    assert(has_path(w.file_ids, f));
                    let k = choose|k: Seq<char>| #[trigger] w.file_ids.contains_key(k) && w.file_ids[k] == f;
                    assert forall|t: u64| #[trigger] w.overlays.contains_key(t) implies !w.overlays[t].path_by_file.contains_key(f) by {
                        assert(w.file_ids.contains_key(k));
                    }
                    lemma_disk_texts_kept(w, session, indexes, files, force, next, f);
                },
                None => {},
            }
        }
        let needed = overlay_needed(w.base, indexes, files);
        assert(overlay_needed(r.base, indexes, files) == needed) by {
            if needed {
                let i = choose|i: int| 0 <= i < files.len() && (#[trigger] files[i]).is_open && shows_other(w.base, indexes, files[i]);
                assert(files[i].is_open && shows_other(r.base, indexes, files[i]));
            }
            if overlay_needed(r.base, indexes, files) {
                let i = choose|i: int| 0 <= i < files.len() && (#[trigger] files[i]).is_open && shows_other(r.base, indexes, files[i]);
                assert(files[i].is_open && shows_other(w.base, indexes, files[i]));
            }
        }
        let kept = wanted(w.base, indexes, files);
        let old = overlay_or_empty(w, session);
        lemma_fresh_total(old, kept);
        lemma_by_path(kept);
        lemma_built(old, indexes, kept, next);
        let bare = built(old, indexes, kept, next);
        let new = new_overlay(w, session, indexes, kept, next);
        assert(r.overlays.contains_key(session) && r.overlays[session] == new);
        assert(overlay_of(r, session) == Some(new));
        assert(new.files == bare.files && new.open_files == bare.open_files);
        if needed {
            lemma_distinct(files);
            assert(new.files.dom() == by_path(files).dom());
            assert(new.open_files.dom() =~= open_paths(files)) by {
                assert forall|k: Seq<char>| new.open_files.dom().contains(k) <==> open_paths(files).contains(k) by {
                    assert(bare.open_files.contains_key(k) <==> by_path(files).contains_key(k) && files[by_path(files)[k] as int].is_open);
                }
            }
            assert forall|i: int| 0 <= i < files.len() implies !entry_differs(new, #[trigger] files[i]) by {
                let key = files[i].path.key;
                assert(by_path(files).contains_key(key) && by_path(files)[key] == i);
                assert(bare.files.contains_key(key));
                assert(bare.open_files.contains_key(key) <==> files[i].is_open);
            }
        } else {
            assert(kept =~= Seq::empty());
            assert(by_path(kept).dom() =~= Set::empty());
            assert(new.files.dom().len() == 0);
        }
        assert(!overlay_changed(r.base, indexes, overlay_of(r, session), files));
    }
}

} // verus!
