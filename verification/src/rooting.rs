//! Crates stay in source roots on disk, whatever is loaded, reloaded or changed.
use crate::base::{in_view, LoadedView};
use crate::batch::batch_workspaces;
use crate::commit::{
    all_rooted, committed, counted, crates_known, is_last_root, last_root, lemma_refreshed, placed_to, refreshed, root_in_use,
    rooted, WorkspaceRootsView,
};
use crate::disk::{all_changes_fit, concerns_any, noted_to, FileChangeView};
use crate::disk_roots::{
    any_overlaid, finished, finite_entries, fitting, lemma_rerooted, lemma_with_texts_any, lemma_workspace_roots_named,
    rerooted_to, with_workspaces, workspace_roots, NewRootsView,
};
use crate::file_ids::MAX_ANALYZED_FILE_ID;
use crate::inputs::{merged, root_changed, CrateView};
use crate::load::{PreparedLoadView, ProcMacroLoadState};
use crate::ordered::sorted_keys;
use crate::overlay_build::lemma_fresh_total;
use crate::overlay_files::{known_roots, lemma_prepared_known, prepared, PreparedView};
use crate::own_files::{
    has_disk_root, has_path, holds_disk_files, is_crate_root, law_crates_stay_rooted_on_disk, rooted_on_disk,
};
use crate::privacy::{
    in_no_overlay, law_sync_keeps_the_world_sound, lemma_disk_roots_synced, next_after, on_disk, room_for, seen_text,
};
use crate::rebuild::{disk_roots, lemma_assigned_cases, lemma_disk_roots_kept, lemma_rebuilt};
use crate::recone::{all_recones_fit, recone_fits, reconed, reconed_to, reopened};
use crate::saving::{
    comes_into_view, has_open, law_saved_text_is_seen, law_saved_text_reaches_all_sessions, lemma_noted_wf, saved,
};
use crate::sessions::{left_by, lemma_left_by, overlay_numbers, unregistered};
use crate::sync::{overlay_of, overlay_or_empty, synced, wanted};
use crate::world::{lemma_listed_given, paths_agree, roots_listed, workspace_agrees, WorldView, ROOT_LIMIT};
use vstd::prelude::*;

verus! {

/// Only numbers that were given have source roots, and the files on disk are in roots of the
/// workspaces' own list.
pub open spec fn rooted_in_list(w: WorldView, next: u32) -> bool {
    &&& forall|f: u32| #[trigger] w.base.inputs.file_roots.contains_key(f) ==> f < next
    &&& forall|f: u32| #[trigger]
        w.base.inputs.file_roots.contains_key(f) && has_path(w.file_ids, f) ==> w.base.inputs.file_roots[f] < workspace_roots(
            w.base.workspaces,
        ).len()
}

/// The database has the list of the workspaces' source roots.
spec fn list_set(w: WorldView) -> bool {
    let n = workspace_roots(w.base.workspaces).len();
    &&& n <= w.base.inputs.roots.len()
    &&& forall|i: int| 0 <= i < n ==> holds_disk_files(w.file_ids, #[trigger] w.base.inputs.roots[i])
}

/// No workspace has lost a source root in between.
pub open spec fn no_root_lost(before: Seq<LoadedView>, after: Seq<LoadedView>) -> bool {
    workspace_roots(before).len() <= workspace_roots(after).len()
}

/// Once the list of source roots is set anew, the files on disk are in roots of the list, and these
/// hold files on disk.
proof fn lemma_list_set(w: WorldView, ids: Map<Seq<char>, u32>, next: u32, count: nat, r: WorldView, ws: Seq<LoadedView>, texts: Seq<(u32, Option<Seq<char>>)>)
    requires
        forall|f: u32| #[trigger] w.base.inputs.file_roots.contains_key(f) ==> f < next,
        forall|f: u32| #[trigger]
            w.base.inputs.file_roots.contains_key(f) && has_path(ids, f) ==> w.base.inputs.file_roots[f] < count,
        count <= workspace_roots(ws).len() <= ROOT_LIMIT,
        r.wf(next),
        r.file_ids == ids,
        r.base.workspaces == ws,
        r.base.inputs == w.base.inputs.with_roots(workspace_roots(ws)).with_texts(texts),
    ensures
        rooted_in_list(r, next),
        list_set(r),
{
    let inputs = w.base.inputs;
    let new = workspace_roots(ws);
    lemma_workspace_roots_named(ids, ws, ws.len() as int);
    lemma_with_texts_any(inputs.with_roots(new), texts, 0);
    assert(r.base.inputs.roots == merged(inputs.roots, new));
    assert forall|i: int, f: u32| 0 <= i < new.len() && #[trigger] new[i].files.contains_key(f) implies has_path(ids, f) && f < next by {
        assert(ids.contains_key(new[i].files[f].key));
    }
    assert forall|i: int| 0 <= i < new.len() implies holds_disk_files(ids, #[trigger] r.base.inputs.roots[i]) by {
        assert forall|f: u32| #[trigger] r.base.inputs.roots[i].files.contains_key(f) implies has_path(ids, f) by {
            if !root_changed(inputs.roots, new, i) {
                assert(inputs.roots[i].files.dom().contains(f));
                assert(new[i].files.dom().contains(f));
            }
            assert(new[i].files.contains_key(f));
        }
    }
    assert forall|f: u32| #[trigger] r.base.inputs.file_roots.contains_key(f) implies f < next && (has_path(ids, f)
        ==> r.base.inputs.file_roots[f] < new.len()) by {
        lemma_assigned_cases(inputs.file_roots, inputs.roots, new, new.len() as int, f);
        let root = r.base.inputs.file_roots[f] as int;
        if !inputs.file_roots.contains_key(f) || root != inputs.file_roots[f] {
            assert(new[root].files.contains_key(f));
        }
    }
}

proof fn lemma_last_exists(base: crate::base::BaseView, n: nat)
    requires
        forall|i: int, f: u32|
            0 <= i < base.workspaces.len() && #[trigger] base.workspaces[i].files.contains_file(f) ==> base.inputs.file_roots[f] < n,
        n <= u32::MAX,
    ensures
        is_last_root(base, last_root(base)),
    decreases n,
{
    if n == 0 {
        assert(is_last_root(base, None));
    } else if root_in_use(base, (n - 1) as u32) {
        assert(is_last_root(base, Some((n - 1) as u32)));
    } else {
        assert forall|i: int, f: u32|
            0 <= i < base.workspaces.len() && #[trigger] base.workspaces[i].files.contains_file(f) implies base.inputs.file_roots[f] < n - 1 by {
            if base.inputs.file_roots[f] == n - 1 {
                assert(root_in_use(base, (n - 1) as u32));
            }
        }
        lemma_last_exists(base, (n - 1) as nat);
    }
}

proof fn lemma_contained_path(ids: Map<Seq<char>, u32>, ws: Seq<LoadedView>, i: int, f: u32)
    requires
        paths_agree(ids, ws),
        0 <= i < ws.len(),
        ws[i].files.contains_file(f),
    ensures
        has_path(ids, f),
{
    reveal(paths_agree);
    assert(workspace_agrees(ids, ws[i]));
    let key = ws[i].files.by_id[f].path.key;
    assert(ws[i].files.by_path.contains_key(key));
    assert(ids.contains_key(key) && ids[key] == f);
}

/// Once it is worked out anew which source roots have files, all crates in view are in roots on disk.
proof fn lemma_refreshed_rooted(c: WorldView, next: u32, crates: Seq<CrateView>)
    requires
        c.wf(next),
        rooted_in_list(c, next),
        list_set(c),
        crates_known(c.base, crates),
        all_rooted(c.base),
        c.base.inputs.roots.len() <= ROOT_LIMIT,
    ensures
        refreshed(c, crates).wf(next),
        rooted_in_list(refreshed(c, crates), next),
        forall|view: Seq<usize>| #[trigger] rooted_on_disk(refreshed(c, crates), view),
{
    let r = refreshed(c, crates);
    let base = c.base;
    assert forall|i: int, f: u32|
        0 <= i < base.workspaces.len() && #[trigger] base.workspaces[i].files.contains_file(f) implies base.inputs.file_roots[f]
        < base.inputs.roots.len() by {
        assert(base.inputs.file_roots.contains_key(f));
    }
    lemma_last_exists(base, base.inputs.roots.len());
    lemma_refreshed(c, crates, next, last_root(base));
    assert forall|view: Seq<usize>| #[trigger] rooted_on_disk(r, view) by {
        assert forall|f: u32| #[trigger] is_crate_root(r.base, f) && in_view(r.base.workspaces, view, f) implies has_disk_root(r, f) by {
            let x = choose|x: int|
                0 <= x < view.len() && (#[trigger] view[x]) < r.base.workspaces.len()
                    && r.base.workspaces[view[x] as int].files.contains_file(f);
            let i = view[x] as int;
            assert(base.workspaces[i].files.contains_file(f));
            lemma_contained_path(c.file_ids, base.workspaces, i, f);
            assert(base.inputs.file_roots.contains_key(f));
            let root = base.inputs.file_roots[f] as int;
            assert(disk_roots(r)[root] == base.inputs.roots[root]);
        }
    }
}

proof fn lemma_unlisted(w: WorldView, next: u32, f: u32)
    requires
        w.wf(next),
        has_path(w.file_ids, f),
    ensures
        f < next,
        in_no_overlay(w, f),
{
    let k = choose|k: Seq<char>| #[trigger] w.file_ids.contains_key(k) && w.file_ids[k] == f;
    assert forall|t: u64| #[trigger] w.overlays.contains_key(t) implies !w.overlays[t].path_by_file.contains_key(f) by {
        assert(w.file_ids.contains_key(k));
    }
}

/// Files on disk stay in roots of the list while overlays come and go.
pub proof fn law_files_stay_in_the_list(
    w: WorldView,
    session: u64,
    indexes: Seq<usize>,
    files: Seq<PreparedView>,
    force: bool,
    next: u32,
)
    requires
        w.wf(next),
        known_roots(w.base, files),
        room_for(w, session, indexes, files, force, next),
        rooted_in_list(w, next),
    ensures
        rooted_in_list(
            synced(w, session, indexes, files, force, next),
            next_after(w, session, indexes, files, force, next) as u32,
        ),
{
    let r = synced(w, session, indexes, files, force, next);
    let after = next_after(w, session, indexes, files, force, next) as u32;
    law_sync_keeps_the_world_sound(w, session, indexes, files, force, next);
    lemma_disk_roots_synced(w, session, indexes, files, force, next);
    lemma_fresh_total(overlay_or_empty(w, session), wanted(w.base, indexes, files));
    assert forall|f: u32| #[trigger] r.base.inputs.file_roots.contains_key(f) implies f < after && (has_path(r.file_ids, f)
        ==> r.base.inputs.file_roots[f] < workspace_roots(r.base.workspaces).len()) by {
        if !w.base.inputs.file_roots.contains_key(f) {
            reveal(roots_listed);
            let i = choose|i: int| 0 <= i < r.base.inputs.roots.len() && (#[trigger] r.base.inputs.roots[i]).files.contains_key(f);
            assert(r.base.inputs.roots[i].files.contains_key(f));
        }
        if has_path(r.file_ids, f) {
            lemma_unlisted(w, next, f);
        }
    }
}

proof fn lemma_reconed_rooted(w: WorldView, next: u32, classes: Map<Seq<char>, Seq<Option<bool>>>, n: int)
    requires
        w.wf(next),
        all_recones_fit(w, next, classes),
        0 <= n <= sorted_keys::<u64>(w.overlays.dom()).len(),
        rooted_in_list(w, next),
    ensures
        ({
            let r = reconed_to(w, next, classes, n);
            &&& r.0.wf(r.1)
            &&& rooted_in_list(r.0, r.1)
            &&& forall|view: Seq<usize>| rooted_on_disk(w, view) ==> #[trigger] rooted_on_disk(r.0, view)
        }),
    decreases n,
{
    if n > 0 {
        lemma_reconed_rooted(w, next, classes, n - 1);
        let before = reconed_to(w, next, classes, n - 1);
        let r = reconed_to(w, next, classes, n);
        let s = sorted_keys::<u64>(w.overlays.dom())[n - 1];
        let indexes = w.overlays[s].workspaces;
        let open = reopened(w.overlays[s], classes);
        let files = prepared(before.0.base, indexes, open);
        assert(recone_fits(w, next, classes, n - 1));
        lemma_prepared_known(before.0.base, indexes, open);
        law_sync_keeps_the_world_sound(before.0, s, indexes, files, true, before.1);
        law_files_stay_in_the_list(before.0, s, indexes, files, true, before.1);
        assert forall|view: Seq<usize>| rooted_on_disk(w, view) implies #[trigger] rooted_on_disk(r.0, view) by {
            law_crates_stay_rooted_on_disk(before.0, s, indexes, files, true, before.1, view);
        }
    }
}

/// Loading a workspace puts all crates into source roots on disk: once what the database found is taken
/// over, every session has the crates in its view there, whatever its view.
pub proof fn law_loading_roots_all_crates(w: WorldView, next: u32, load: PreparedLoadView, crates: Seq<CrateView>, changed: bool)
    requires
        w.wf(next),
        rooted_in_list(w, next),
        workspace_roots(w.base.workspaces.push(load.workspace)).len() <= ROOT_LIMIT,
        committed(w, load).wf(next),
        crates_known(committed(w, load).base, crates),
        all_rooted(committed(w, load).base),
        committed(w, load).base.inputs.roots.len() <= ROOT_LIMIT,
    ensures
        rooted_in_list(counted(refreshed(committed(w, load), crates), changed, true), next),
        forall|view: Seq<usize>| #[trigger] rooted_on_disk(counted(refreshed(committed(w, load), crates), changed, true), view),
{
    let c = committed(w, load);
    let ws = w.base.workspaces.push(load.workspace);
    assert(crate::disk_roots::workspace_roots_to(ws, w.base.workspaces.len() as int) == workspace_roots(w.base.workspaces)) by {
        lemma_roots_of_front(ws, w.base.workspaces, w.base.workspaces.len() as int);
    }
    lemma_list_set(w, w.file_ids, next, workspace_roots(w.base.workspaces).len(), c, ws, load.texts);
    lemma_refreshed_rooted(c, next, crates);
    let r = refreshed(c, crates);
    let k = counted(r, changed, true);
    assert(disk_roots(k) == disk_roots(r));
    assert forall|view: Seq<usize>| #[trigger] rooted_on_disk(k, view) by {
        assert(rooted_on_disk(r, view));
        lemma_counted_rooted(r, changed, true, view);
    }
}

proof fn lemma_roots_of_front(ws: Seq<LoadedView>, front: Seq<LoadedView>, n: int)
    requires
        0 <= n <= front.len() <= ws.len(),
        forall|i: int| 0 <= i < front.len() ==> ws[i] == #[trigger] front[i],
    ensures
        crate::disk_roots::workspace_roots_to(ws, n) == crate::disk_roots::workspace_roots_to(front, n),
    decreases n,
{
    if n > 0 {
        lemma_roots_of_front(ws, front, n - 1);
        assert(ws[n - 1] == front[n - 1]);
    }
}

proof fn lemma_counted_rooted(w: WorldView, changed: bool, workspaces_changed: bool, view: Seq<usize>)
    requires
        rooted_on_disk(w, view),
    ensures
        rooted_on_disk(counted(w, changed, workspaces_changed), view),
{
    let k = counted(w, changed, workspaces_changed);
    assert(disk_roots(k) == disk_roots(w));
    assert forall|f: u32| #[trigger] is_crate_root(k.base, f) && in_view(k.base.workspaces, view, f) implies has_disk_root(k, f) by {
        assert(is_crate_root(w.base, f));
        assert(has_disk_root(w, f));
    }
}

proof fn lemma_placed_inputs(w: WorldView, next: u32, loads: Seq<PreparedLoadView>, n: int)
    requires
        0 <= n <= loads.len(),
    ensures
        placed_to(w, next, loads, n).world.base.inputs == w.base.inputs,
        placed_to(w, next, loads, n).world.file_ids == w.file_ids,
    decreases n,
{
    if n > 0 {
        lemma_placed_inputs(w, next, loads, n - 1);
    }
}

/// The workspaces once a batch is put in with its source roots.
pub open spec fn batch_committed(
    w: WorldView,
    next: u32,
    loads: Seq<PreparedLoadView>,
    list: Seq<WorkspaceRootsView>,
    indexes: Seq<usize>,
    keys: Seq<crate::spawn_key::SpawnKeyView>,
    config: crate::spawn::SpawnConfigView,
    macros: Seq<u64>,
    state: ProcMacroLoadState,
) -> WorldView {
    let s = placed_to(w, next, loads, loads.len() as int);
    with_workspaces(s.world, rooted(batch_workspaces(s.world, indexes, keys, config, macros, state), list), true, s.texts)
}

/// Reloading workspaces puts all crates into source roots on disk, as long as no source root is lost:
/// once the batch is dealt with to the end, every session has the crates in its view there.
pub proof fn law_reloading_roots_all_crates(
    w: WorldView,
    next: u32,
    loads: Seq<PreparedLoadView>,
    list: Seq<WorkspaceRootsView>,
    indexes: Seq<usize>,
    keys: Seq<crate::spawn_key::SpawnKeyView>,
    config: crate::spawn::SpawnConfigView,
    macros: Seq<u64>,
    state: ProcMacroLoadState,
    crates: Seq<CrateView>,
    classes: Map<Seq<char>, Seq<Option<bool>>>,
    changed: bool,
    workspaces_changed: bool,
)
    requires
        w.wf(next),
        rooted_in_list(w, next),
        ({
            let c = batch_committed(w, next, loads, list, indexes, keys, config, macros, state);
            &&& c.wf(next)
            &&& no_root_lost(w.base.workspaces, c.base.workspaces)
            &&& workspace_roots(c.base.workspaces).len() <= ROOT_LIMIT
            &&& c.base.inputs.roots.len() <= ROOT_LIMIT
            &&& crates_known(c.base, crates)
            &&& all_rooted(c.base)
            &&& all_recones_fit(refreshed(c, crates), next, classes)
        }),
    ensures
        ({
            let c = batch_committed(w, next, loads, list, indexes, keys, config, macros, state);
            let done = reconed(refreshed(c, crates), next, classes);
            let r = counted(done.0, changed, workspaces_changed);
            &&& rooted_in_list(r, done.1)
            &&& forall|view: Seq<usize>| #[trigger] rooted_on_disk(r, view)
        }),
{
    let c = batch_committed(w, next, loads, list, indexes, keys, config, macros, state);
    let s = placed_to(w, next, loads, loads.len() as int);
    lemma_placed_inputs(w, next, loads, loads.len() as int);
    lemma_list_set(w, w.file_ids, next, workspace_roots(w.base.workspaces).len(), c, c.base.workspaces, s.texts);
    lemma_refreshed_rooted(c, next, crates);
    let f = refreshed(c, crates);
    lemma_reconed_rooted(f, next, classes, sorted_keys::<u64>(f.overlays.dom()).len() as int);
    let done = reconed(f, next, classes);
    assert forall|view: Seq<usize>| #[trigger] rooted_on_disk(counted(done.0, changed, workspaces_changed), view) by {
        assert(rooted_on_disk(f, view));
        assert(rooted_on_disk(done.0, view));
        lemma_counted_rooted(done.0, changed, workspaces_changed, view);
    }
}

proof fn lemma_noted_list(w: WorldView, next: u32, indexes: Seq<usize>, files: Seq<FileChangeView>, n: int)
    requires
        w.wf(next),
        w.base.workspaces.len() <= usize::MAX,
        all_changes_fit(w, next, indexes, files),
        0 <= n <= files.len(),
        rooted_in_list(w, next),
    ensures
        ({
            let s = noted_to(w, next, indexes, files, n);
            &&& s.world.base.inputs == w.base.inputs
            &&& s.world.base.crates == w.base.crates
            &&& s.world.overlays == w.overlays
            &&& s.world.max_root == w.max_root
            &&& next <= s.next
            &&& forall|f: u32| has_path(w.file_ids, f) ==> #[trigger] has_path(s.world.file_ids, f)
            &&& forall|f: u32| #[trigger] has_path(s.world.file_ids, f) && f < next ==> has_path(w.file_ids, f)
        }),
    decreases n,
{
    if n > 0 {
        lemma_noted_list(w, next, indexes, files, n - 1);
        lemma_noted_wf(w, next, indexes, files, n - 1);
        let before = noted_to(w, next, indexes, files, n - 1);
        let s = noted_to(w, next, indexes, files, n);
        assert(crate::disk::change_fits(before, indexes, files[n - 1]));
        let (m, ids) = (before.world.file_ids, s.world.file_ids);
        if ids != m {
            let key = files[n - 1].path.key;
            assert(!m.contains_key(key) && ids == m.insert(key, before.next));
            assert forall|f: u32| has_path(m, f) implies #[trigger] has_path(ids, f) by {
                let k = choose|k: Seq<char>| #[trigger] m.contains_key(k) && m[k] == f;
                assert(ids.contains_key(k) && ids[k] == f);
            }
            assert forall|f: u32| #[trigger] has_path(ids, f) && f < before.next implies has_path(m, f) by {
                let k = choose|k: Seq<char>| #[trigger] ids.contains_key(k) && ids[k] == f;
                assert(m.contains_key(k) && m[k] == f);
            }
        }
        assert forall|f: u32| has_path(w.file_ids, f) implies #[trigger] has_path(ids, f) by {
            assert(has_path(m, f));
        }
        assert forall|f: u32| #[trigger] has_path(ids, f) && f < next implies has_path(w.file_ids, f) by {
            assert(has_path(m, f));
        }
    }
}

/// The changes can be noted, and the source roots fit the workspaces.
pub open spec fn change_is_fitting(
    w: WorldView,
    next: u32,
    indexes: Seq<usize>,
    files: Seq<FileChangeView>,
    list: Seq<NewRootsView>,
) -> bool {
    let s = noted_to(w, next, indexes, files, files.len() as int);
    &&& w.base.workspaces.len() <= usize::MAX
    &&& all_changes_fit(w, next, indexes, files)
    &&& fitting(s.world.base.workspaces, s.affected, list)
    &&& finite_entries(list)
    &&& workspace_roots(rerooted_to(s.world.base.workspaces, list, list.len() as int)).len() <= ROOT_LIMIT
}

/// Files on disk stay in roots of the list while files change on disk, as long as no source root is
/// lost.
pub proof fn law_changes_keep_files_in_the_list(
    w: WorldView,
    next: u32,
    indexes: Seq<usize>,
    files: Seq<FileChangeView>,
    list: Seq<NewRootsView>,
)
    requires
        w.wf(next),
        rooted_in_list(w, next),
        change_is_fitting(w, next, indexes, files, list),
        no_root_lost(w.base.workspaces, saved(w, next, indexes, files, list).base.workspaces),
    ensures
        rooted_in_list(
            saved(w, next, indexes, files, list),
            noted_to(w, next, indexes, files, files.len() as int).next,
        ),
{
    let n = files.len() as int;
    let s = noted_to(w, next, indexes, files, n);
    let r = saved(w, next, indexes, files, list);
    lemma_noted_wf(w, next, indexes, files, n);
    lemma_noted_list(w, next, indexes, files, n);
    lemma_rerooted(s, list);
    let count = workspace_roots(w.base.workspaces).len();
    assert forall|f: u32| #[trigger] s.world.base.inputs.file_roots.contains_key(f) implies f < s.next && (has_path(r.file_ids, f)
        ==> s.world.base.inputs.file_roots[f] < count) by {
        assert(w.base.inputs.file_roots.contains_key(f));
        assert(has_path(s.world.file_ids, f) ==> has_path(w.file_ids, f));
    }
    if crate::disk_roots::roots_differ_to(s.world.base.workspaces, list, list.len() as int) {
        lemma_list_set(s.world, r.file_ids, s.next, count, r, r.base.workspaces, s.texts);
    } else {
        lemma_with_texts_any(s.world.base.inputs, s.texts, 0);
    }
}

/// The crates of the workspaces are crates that some workspace had before, and none of them has come into
/// a source root behind the last one that has files.
pub open spec fn none_moves_behind(w: WorldView, r: WorldView) -> bool {
    let new = workspace_roots(r.base.workspaces);
    forall|f: u32| #[trigger]
        is_crate_root(w.base, f) && on_disk(r, f) ==> on_disk(w, f) && forall|i: int|
            disk_roots(w).len() <= i < new.len() && (#[trigger] new[i]).files.contains_key(f) ==> i < w.base.inputs.roots.len()
                && w.base.inputs.roots[i].files.contains_key(f)
}

/// Crates stay in source roots on disk while files change on disk, as long as none of them moves into
/// a source root behind the last one that has files: such a root gives way to those of overlays until
/// it is worked out anew which roots have files.
pub proof fn law_changes_keep_crates_rooted(
    w: WorldView,
    next: u32,
    indexes: Seq<usize>,
    files: Seq<FileChangeView>,
    list: Seq<NewRootsView>,
)
    requires
        w.wf(next),
        rooted_in_list(w, next),
        change_is_fitting(w, next, indexes, files, list),
        forall|view: Seq<usize>| #[trigger] rooted_on_disk(w, view),
        none_moves_behind(w, saved(w, next, indexes, files, list)),
    ensures
        forall|view: Seq<usize>| #[trigger] rooted_on_disk(saved(w, next, indexes, files, list), view),
{
    let n = files.len() as int;
    let s = noted_to(w, next, indexes, files, n);
    let r = saved(w, next, indexes, files, list);
    lemma_noted_wf(w, next, indexes, files, n);
    lemma_noted_list(w, next, indexes, files, n);
    lemma_rerooted(s, list);
    let inputs = w.base.inputs;
    let new = workspace_roots(r.base.workspaces);
    let differ = crate::disk_roots::roots_differ_to(s.world.base.workspaces, list, list.len() as int);
    lemma_with_texts_any(inputs.with_roots(new), s.texts, 0);
    lemma_with_texts_any(inputs, s.texts, 0);
    lemma_workspace_roots_named(r.file_ids, r.base.workspaces, r.base.workspaces.len() as int);
    assert(disk_roots(r).len() == disk_roots(w).len());
    assert forall|f: u32| #[trigger] is_crate_root(r.base, f) && on_disk(r, f) implies has_disk_root(r, f) by {
        assert(is_crate_root(w.base, f));
        let x = choose|x: int| 0 <= x < w.base.workspaces.len() && #[trigger] w.base.workspaces[x].files.contains_file(f);
        assert(on_disk(w, f));
        let alone = seq![x as usize];
        assert(alone[0] == x as usize && (x as usize) as int == x);
        assert(w.base.workspaces[alone[0] as int].files.contains_file(f));
        assert(in_view(w.base.workspaces, alone, f));
        assert(rooted_on_disk(w, alone));
        assert(has_disk_root(w, f));
        let (c, d) = choose|c: int, d: int|
            0 <= c < w.base.crates.len() && 0 <= d < w.base.crates[c].transitive_rev_deps.len()
                && #[trigger] w.base.crates[c].transitive_rev_deps[d] == f;
        assert(inputs.file_roots.contains_key(w.base.crates[c].transitive_rev_deps[d]));
        lemma_assigned_cases(inputs.file_roots, inputs.roots, new, new.len() as int, f);
        let root = r.base.inputs.file_roots[f] as int;
        if differ && root != inputs.file_roots[f] {
            assert(new[root].files.contains_key(f));
        }
        assert(root < disk_roots(w).len());
        assert(disk_roots(r)[root] == r.base.inputs.roots[root]);
        assert(disk_roots(w)[root] == inputs.roots[root]);
        assert forall|g: u32| #[trigger] r.base.inputs.roots[root].files.contains_key(g) implies has_path(r.file_ids, g) by {
            if differ && root < new.len() {
                if !root_changed(inputs.roots, new, root) {
                    assert(inputs.roots[root].files.dom().contains(g));
                    assert(new[root].files.dom().contains(g));
                }
                assert(new[root].files.contains_key(g));
                assert(r.file_ids.contains_key(new[root].files[g].key));
            } else {
                assert(root == inputs.file_roots[f]);
                assert(inputs.roots[root].files.contains_key(g));
                assert(has_path(w.file_ids, g));
                assert(has_path(s.world.file_ids, g));
            }
        }
    }
    assert forall|view: Seq<usize>| #[trigger] rooted_on_disk(r, view) by {
        assert forall|f: u32| #[trigger] is_crate_root(r.base, f) && in_view(r.base.workspaces, view, f) implies has_disk_root(r, f) by {
            let x = choose|x: int|
                0 <= x < view.len() && (#[trigger] view[x]) < r.base.workspaces.len()
                    && r.base.workspaces[view[x] as int].files.contains_file(f);
            assert(r.base.workspaces[view[x] as int].files.contains_file(f));
            assert(on_disk(r, f));
        }
    }
}

/// What ends a change on disk leaves files in roots of the list and crates in source roots on disk.
pub proof fn law_finished_changes_stay_rooted(
    w: WorldView,
    next: u32,
    classes: Map<Seq<char>, Seq<Option<bool>>>,
    changed: bool,
)
    requires
        w.wf(next),
        rooted_in_list(w, next),
        changed && any_overlaid(w) ==> all_recones_fit(w, next, classes),
    ensures
        rooted_in_list(finished(w, next, classes, changed).0, finished(w, next, classes, changed).1),
        forall|view: Seq<usize>| rooted_on_disk(w, view) ==> #[trigger] rooted_on_disk(finished(w, next, classes, changed).0, view),
{
    let r = finished(w, next, classes, changed);
    let done = if changed && any_overlaid(w) {
        reconed(w, next, classes)
    } else {
        (w, next)
    };
    if changed && any_overlaid(w) {
        lemma_reconed_rooted(w, next, classes, sorted_keys::<u64>(w.overlays.dom()).len() as int);
    }
    assert forall|view: Seq<usize>| rooted_on_disk(w, view) implies #[trigger] rooted_on_disk(r.0, view) by {
        assert(rooted_on_disk(done.0, view));
        if changed {
            lemma_counted_rooted(done.0, true, false, view);
            assert(r.0 == counted(done.0, true, false));
        }
    }
}

/// A session that leaves takes no source root on disk with it.
pub proof fn law_leaving_keeps_crates_rooted(w: WorldView, session: u64, next: u32)
    requires
        w.wf(next),
        rooted_in_list(w, next),
    ensures
        rooted_in_list(unregistered(w, session), next),
        forall|view: Seq<usize>| rooted_on_disk(w, view) ==> #[trigger] rooted_on_disk(unregistered(w, session), view),
{
    let l = left_by(w, session);
    let r = unregistered(w, session);
    let removed = overlay_numbers(w, session);
    lemma_left_by(w, session, next);
    assert(disk_roots(l) == disk_roots(w));
    if removed.len() > 0 {
        lemma_rebuilt(l, removed, next);
        lemma_disk_roots_kept(l, removed, next);
    }
    assert(disk_roots(r) =~= disk_roots(w)) by {
        assert forall|i: int| 0 <= i < disk_roots(w).len() implies disk_roots(r)[i] == disk_roots(w)[i] by {
            assert(r.base.inputs.roots[i] == w.base.inputs.roots[i]);
        }
    }
    assert forall|f: u32| in_no_overlay(w, f) implies {
        &&& #[trigger] r.base.inputs.file_roots.contains_key(f) == w.base.inputs.file_roots.contains_key(f)
        &&& w.base.inputs.file_roots.contains_key(f) ==> r.base.inputs.file_roots[f] == w.base.inputs.file_roots[f]
    } by {
        assert forall|t: u64| #[trigger] l.overlays.contains_key(t) implies !l.overlays[t].path_by_file.contains_key(f) by {
            assert(w.overlays.contains_key(t));
        }
    }
    assert forall|f: u32| #[trigger] r.base.inputs.file_roots.contains_key(f) implies f < next && (has_path(r.file_ids, f)
        ==> r.base.inputs.file_roots[f] < workspace_roots(r.base.workspaces).len()) by {
        if !w.base.inputs.file_roots.contains_key(f) {
            reveal(roots_listed);
            let i = choose|i: int| 0 <= i < r.base.inputs.roots.len() && (#[trigger] r.base.inputs.roots[i]).files.contains_key(f);
            assert(r.base.inputs.roots[i].files.contains_key(f));
        }
        if has_path(r.file_ids, f) {
            lemma_unlisted(w, next, f);
        }
    }
    assert forall|view: Seq<usize>| rooted_on_disk(w, view) implies #[trigger] rooted_on_disk(r, view) by {
        assert forall|f: u32| #[trigger] is_crate_root(r.base, f) && in_view(r.base.workspaces, view, f) implies has_disk_root(r, f) by {
            assert(is_crate_root(w.base, f));
            assert(in_view(w.base.workspaces, view, f));
            assert(has_disk_root(w, f));
            let (c, d) = choose|c: int, d: int|
                0 <= c < w.base.crates.len() && 0 <= d < w.base.crates[c].transitive_rev_deps.len()
                    && #[trigger] w.base.crates[c].transitive_rev_deps[d] == f;
            assert(w.base.inputs.file_roots.contains_key(w.base.crates[c].transitive_rev_deps[d]));
            let x = choose|x: int|
                0 <= x < view.len() && (#[trigger] view[x]) < w.base.workspaces.len()
                    && w.base.workspaces[view[x] as int].files.contains_file(f);
            assert(w.base.workspaces[view[x] as int].files.contains_file(f));
            assert(in_no_overlay(w, f)) by {
                assert forall|t: u64| #[trigger] w.overlays.contains_key(t) implies !w.overlays[t].path_by_file.contains_key(f) by {}
            }
            assert(r.base.inputs.file_roots.contains_key(f));
        }
    }
}

/// Giving a path its number, as loading does, keeps the world sound and its crates in source roots on
/// disk.
pub proof fn law_given_number_keeps_the_world_sound(w: WorldView, next: u32, key: Seq<char>)
    requires
        w.wf(next),
        rooted_in_list(w, next),
        next <= MAX_ANALYZED_FILE_ID,
        !w.file_ids.contains_key(key),
    ensures
        ({
            let r = WorldView { file_ids: w.file_ids.insert(key, next), ..w };
            &&& r.wf((next + 1) as u32)
            &&& rooted_in_list(r, (next + 1) as u32)
            &&& forall|view: Seq<usize>| rooted_on_disk(w, view) ==> #[trigger] rooted_on_disk(r, view)
        }),
{
    let (m, n) = (w.file_ids, w.file_ids.insert(key, next));
    let r = WorldView { file_ids: n, ..w };
    let after = (next + 1) as u32;
    lemma_listed_given(m, w.base.inputs.roots, next, key);
    assert(paths_agree(n, w.base.workspaces)) by {
        reveal(paths_agree);
        assert forall|i: int| 0 <= i < w.base.workspaces.len() implies workspace_agrees(n, #[trigger] w.base.workspaces[i]) by {
            assert(workspace_agrees(m, w.base.workspaces[i]));
            let files = w.base.workspaces[i].files;
            assert forall|k: Seq<char>| #[trigger] files.by_path.contains_key(k) implies n.contains_key(k) && n[k] == files.by_path[k] by {
                assert(m.contains_key(k));
            }
            let roots = w.base.workspaces[i].source_roots;
            assert forall|q: int, f: u32| 0 <= q < roots.len() && #[trigger] roots[q].files.contains_key(f) implies n.contains_key(
                roots[q].files[f].key,
            ) && n[roots[q].files[f].key] == f by {
                assert(m.contains_key(roots[q].files[f].key));
            }
        }
    }
    assert(crate::world::file_ids_sound(r, after)) by {
        assert forall|k: Seq<char>| #[trigger] n.contains_key(k) implies n[k] < after by {
            if k != key {
                assert(m.contains_key(k));
            }
        }
        assert forall|j: Seq<char>, k: Seq<char>| #[trigger] n.contains_key(j) && #[trigger] n.contains_key(k) && n[j] == n[k] implies j
            == k by {
            if j != key {
                assert(m.contains_key(j));
            }
            if k != key {
                assert(m.contains_key(k));
            }
        }
        assert forall|k: Seq<char>, s: u64| #[trigger] n.contains_key(k) && #[trigger] r.overlays.contains_key(s) implies !r.overlays[s].path_by_file.contains_key(
            n[k],
        ) by {
            assert(w.overlays.contains_key(s));
            if k != key {
                assert(m.contains_key(k));
            }
        }
    }
    assert forall|s: u64| #[trigger] r.overlays.contains_key(s) implies crate::overlay_build::numbers_below(r.overlays[s], after) by {
        assert(crate::overlay_build::numbers_below(w.overlays[s], next));
    }
    assert(crate::world::disk_numbers_apart(r, after));
    assert(r.sound_roots(after));
    assert(r.wf(after));
    assert forall|f: u32| #[trigger] has_path(n, f) && f != next implies has_path(m, f) by {
        let k = choose|k: Seq<char>| #[trigger] n.contains_key(k) && n[k] == f;
        assert(m.contains_key(k) && m[k] == f);
    }
    assert(disk_roots(r) == disk_roots(w));
    assert forall|view: Seq<usize>| rooted_on_disk(w, view) implies #[trigger] rooted_on_disk(r, view) by {
        assert forall|f: u32| #[trigger] is_crate_root(r.base, f) && in_view(r.base.workspaces, view, f) implies has_disk_root(r, f) by {
            assert(is_crate_root(w.base, f));
            assert(has_disk_root(w, f));
            let root = disk_roots(w)[w.base.inputs.file_roots[f] as int];
            assert forall|g: u32| #[trigger] root.files.contains_key(g) implies has_path(n, g) by {
                assert(has_path(m, g));
                let k = choose|k: Seq<char>| #[trigger] m.contains_key(k) && m[k] == g;
                assert(n.contains_key(k) && n[k] == g);
            }
        }
    }
}

/// A save is seen by all: once a change on disk is dealt with to the end, every session that has the path
/// in its view and does not have it open sees the new text, whatever else it has open.
pub proof fn law_save_is_seen_by_every_session(
    w: WorldView,
    next: u32,
    indexes: Seq<usize>,
    files: Seq<FileChangeView>,
    at: int,
    list: Seq<NewRootsView>,
    classes: Map<Seq<char>, Seq<Option<bool>>>,
    session: u64,
    view: Seq<usize>,
)
    requires
        w.wf(next),
        rooted_in_list(w, next),
        forall|v: Seq<usize>| #[trigger] rooted_on_disk(w, v),
        change_is_fitting(w, next, indexes, files, list),
        none_moves_behind(w, saved(w, next, indexes, files, list)),
        0 <= at < files.len(),
        files[at].text is Some,
        forall|j: int| at < j < files.len() ==> (#[trigger] files[j]).path.key != files[at].path.key,
        concerns_any(noted_to(w, next, indexes, files, at).world.base.workspaces, indexes, files[at]),
        comes_into_view(w, next, indexes, files, view, files[at].path.key),
        overlay_of(w, session) matches Some(overlay) ==> !has_open(overlay, files[at].path.key) && (overlay.open_files.dom().len() > 0
            ==> overlay.workspaces == view),
        any_overlaid(w) ==> all_recones_fit(
            saved(w, next, indexes, files, list),
            noted_to(w, next, indexes, files, files.len() as int).next,
            classes,
        ),
    ensures
        seen_text(
            finished(
                saved(w, next, indexes, files, list),
                noted_to(w, next, indexes, files, files.len() as int).next,
                classes,
                true,
            ).0,
            session,
            view,
            files[at].path.key,
        ) == files[at].text,
{
    let key = files[at].path.key;
    let n = files.len() as int;
    let r = saved(w, next, indexes, files, list);
    let after = noted_to(w, next, indexes, files, n).next;
    law_saved_text_is_seen(w, next, indexes, files, at, list, session, view);
    law_changes_keep_crates_rooted(w, next, indexes, files, list);
    lemma_noted_list(w, next, indexes, files, n);
    assert(r.overlays == w.overlays);
    assert(overlay_of(r, session) == overlay_of(w, session));
    assert(rooted_on_disk(r, view));
    law_saved_text_reaches_all_sessions(r, after, classes, session, view, key);
}

} // verus!
