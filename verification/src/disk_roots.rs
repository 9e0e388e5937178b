//! The source roots of workspaces, once changes to files on disk are noted.
use crate::base::{BaseView, LoadedView, LoadedWorkspace};
use crate::disk::{mentions, noted_view, NotedChanges, NotedView};
use crate::file_ids::SharedFileIds;
use crate::files::FilesView;
use crate::inputs::{
    lemma_with_roots, root_views, same_root, InputsView, RootChange, RootView, SourceRoot,
};
use crate::ordered::{listed, sorted_keys};
use crate::overlay::OverlayFileView;
use crate::recone::{
    all_classified, all_recones_fit, are_recones, lemma_reconed_generations, recone_fits, reconed, reconed_to,
    recones_stopped, Classification, OutOfFileNumbers,
};
use crate::sync::SharedOverlaySync;
use crate::world::{
    files_agree, lemma_listed_merged, lemma_listed_named, paths_agree, roots_listed, roots_named, workspace_agrees,
    SharedWorld, WorldView, ROOT_LIMIT,
};
use rustc_hash::FxHashMap;
use vstd::prelude::*;

verus! {

/// The source roots that a workspace's existing files fall into, and the parents of those roots.
pub struct NewRoots {
    pub workspace: usize,
    pub roots: Vec<SourceRoot>,
    pub parents: FxHashMap<u32, u32>,
}

#[verifier::ext_equal]
pub struct NewRootsView {
    pub workspace: usize,
    pub roots: Seq<RootView>,
    pub parents: Map<u32, u32>,
}

impl View for NewRoots {
    type V = NewRootsView;

    open spec fn view(&self) -> NewRootsView {
        NewRootsView { workspace: self.workspace, roots: root_views(self.roots@), parents: self.parents@ }
    }
}

pub open spec fn new_roots_views(list: Seq<NewRoots>) -> Seq<NewRootsView> {
    list.map_values(|n: NewRoots| n@)
}

pub open spec fn same_roots(a: Seq<RootView>, b: Seq<RootView>) -> bool {
    a.len() == b.len() && forall|i: int| 0 <= i < a.len() ==> same_root(#[trigger] a[i], b[i])
}

/// The roots hold the files that exist, and no others, each under its path.
pub open spec fn covers(files: FilesView, roots: Seq<RootView>) -> bool {
    &&& forall|f: u32| #[trigger] files.file_exists(f) <==> in_roots(roots, f)
    &&& forall|r: int, f: u32|
        0 <= r < roots.len() && #[trigger] roots[r].files.contains_key(f) ==> roots[r].files[f].key == files.by_id[f].path.key
}

/// Roots that hold a workspace's files under their paths list them under the numbers of the paths.
proof fn lemma_covering_named(ids: Map<Seq<char>, u32>, files: FilesView, roots: Seq<RootView>)
    requires
        covers(files, roots),
        files_agree(ids, files),
    ensures
        roots_named(ids, roots),
{
    assert forall|r: int, f: u32| 0 <= r < roots.len() && #[trigger] roots[r].files.contains_key(f) implies ids.contains_key(
        roots[r].files[f].key,
    ) && ids[roots[r].files[f].key] == f by {
        assert(in_roots(roots, f));
        assert(files.file_exists(f));
        assert(files.by_id.contains_key(f));
        assert(files.by_path.contains_key(files.by_id[f].path.key));
    }
}

pub open spec fn in_roots(roots: Seq<RootView>, f: u32) -> bool {
    exists|r: int| 0 <= r < roots.len() && #[trigger] roots[r].files.contains_key(f)
}

/// The workspaces with the roots of the first `n` entries.
pub open spec fn rerooted_to(ws: Seq<LoadedView>, list: Seq<NewRootsView>, n: int) -> Seq<LoadedView>
    decreases n,
{
    if n <= 0 {
        ws
    } else {
        let before = rerooted_to(ws, list, n - 1);
        let entry = list[n - 1];
        let at = entry.workspace as int;
        if same_roots(before[at].source_roots, entry.roots) {
            before
        } else {
            before.update(at, LoadedView { source_roots: entry.roots, parents: entry.parents, ..before[at] })
        }
    }
}

/// Whether some of the first `n` entries brings other roots.
pub open spec fn roots_differ_to(ws: Seq<LoadedView>, list: Seq<NewRootsView>, n: int) -> bool
    decreases n,
{
    if n <= 0 {
        false
    } else {
        roots_differ_to(ws, list, n - 1) || !same_roots(
            rerooted_to(ws, list, n - 1)[list[n - 1].workspace as int].source_roots,
            list[n - 1].roots,
        )
    }
}

/// The source roots of the first `n` workspaces.
pub open spec fn workspace_roots_to(ws: Seq<LoadedView>, n: int) -> Seq<RootView>
    decreases n,
{
    if n <= 0 {
        Seq::empty()
    } else {
        workspace_roots_to(ws, n - 1) + ws[n - 1].source_roots
    }
}

/// The source roots of all workspaces, one workspace after another.
pub open spec fn workspace_roots(ws: Seq<LoadedView>) -> Seq<RootView> {
    workspace_roots_to(ws, ws.len() as int)
}

/// The inputs with new source roots, where they differ, and new texts.
pub open spec fn rerooted_inputs(inputs: InputsView, ws: Seq<LoadedView>, differ: bool, texts: Seq<(u32, Option<Seq<char>>)>) -> InputsView {
    (if differ {
        inputs.with_roots(workspace_roots(ws))
    } else {
        inputs
    }).with_texts(texts)
}

/// The world once the roots of the workspaces and the new texts are in it.
pub open spec fn rerooted(w: WorldView, list: Seq<NewRootsView>, texts: Seq<(u32, Option<Seq<char>>)>) -> WorldView {
    let n = list.len() as int;
    let ws = rerooted_to(w.base.workspaces, list, n);
    WorldView {
        base: BaseView {
            workspaces: ws,
            inputs: rerooted_inputs(w.base.inputs, ws, roots_differ_to(w.base.workspaces, list, n), texts),
            ..w.base
        },
        ..w
    }
}

/// The entries are for workspaces that are there, each holds the files that exist, and there is one
/// for each of the workspaces concerned.
pub open spec fn fitting(ws: Seq<LoadedView>, affected: Seq<usize>, list: Seq<NewRootsView>) -> bool {
    &&& forall|e: int| 0 <= e < list.len() ==> (#[trigger] list[e]).workspace < ws.len()
    &&& forall|e: int| 0 <= e < list.len() ==> covers(ws[(#[trigger] list[e]).workspace as int].files, list[e].roots)
    &&& forall|j: int| 0 <= j < affected.len() ==> has_entry(list, #[trigger] affected[j])
}

pub open spec fn has_entry(list: Seq<NewRootsView>, workspace: usize) -> bool {
    exists|e: int| 0 <= e < list.len() && (#[trigger] list[e]).workspace == workspace
}

pub open spec fn finite_entries(list: Seq<NewRootsView>) -> bool {
    forall|e: int, r: int|
        0 <= e < list.len() && 0 <= r < list[e].roots.len() ==> (#[trigger] list[e].roots[r]).files.dom().finite()
}

proof fn lemma_same_roots_hold(a: Seq<RootView>, b: Seq<RootView>, f: u32)
    requires
        same_roots(a, b),
    ensures
        in_roots(a, f) == in_roots(b, f),
{
    if in_roots(a, f) {
        let r = choose|r: int| 0 <= r < a.len() && #[trigger] a[r].files.contains_key(f);
        assert(same_root(a[r], b[r]));
        assert(a[r].files.dom().contains(f));
        assert(b[r].files.contains_key(f));
    }
    if in_roots(b, f) {
        let r = choose|r: int| 0 <= r < b.len() && #[trigger] b[r].files.contains_key(f);
        assert(same_root(a[r], b[r]));
        assert(b[r].files.dom().contains(f));
        assert(a[r].files.contains_key(f));
    }
}

/// Each workspace has its old roots or those of an entry; one with an entry has roots that hold the
/// files that exist; without a difference nothing has changed.
proof fn lemma_rerooted_to(ws: Seq<LoadedView>, list: Seq<NewRootsView>, n: int)
    requires
        fitting(ws, Seq::empty(), list),
        finite_entries(list),
        0 <= n <= list.len(),
    ensures
        rerooted_to(ws, list, n).len() == ws.len(),
        forall|i: int|
            0 <= i < ws.len() ==> {
                let lw = #[trigger] rerooted_to(ws, list, n)[i];
                &&& lw.files == ws[i].files
                &&& lw == (LoadedView { source_roots: lw.source_roots, parents: lw.parents, ..ws[i] })
                &&& lw.source_roots == ws[i].source_roots || (covers(ws[i].files, lw.source_roots) && forall|r: int|
                    0 <= r < lw.source_roots.len() ==> (#[trigger] lw.source_roots[r]).files.dom().finite())
            },
        forall|e: int, f: u32|
            0 <= e < n && (#[trigger] ws[list[e].workspace as int].files.file_exists(f)) ==> in_roots(
                rerooted_to(ws, list, n)[list[e].workspace as int].source_roots,
                f,
            ),
        !roots_differ_to(ws, list, n) ==> rerooted_to(ws, list, n) == ws,
    decreases n,
{
    if n > 0 {
        lemma_rerooted_to(ws, list, n - 1);
        let before = rerooted_to(ws, list, n - 1);
        let r = rerooted_to(ws, list, n);
        let entry = list[n - 1];
        let at = entry.workspace as int;
        assert(covers(ws[at].files, entry.roots));
        assert forall|i: int| 0 <= i < ws.len() implies {
            let lw = #[trigger] r[i];
            &&& lw.files == ws[i].files
            &&& lw == (LoadedView { source_roots: lw.source_roots, parents: lw.parents, ..ws[i] })
            &&& lw.source_roots == ws[i].source_roots || (covers(ws[i].files, lw.source_roots) && forall|q: int|
                0 <= q < lw.source_roots.len() ==> (#[trigger] lw.source_roots[q]).files.dom().finite())
        } by {
            assert(before[i].files == ws[i].files);
            if i == at && !same_roots(before[at].source_roots, entry.roots) {
                assert forall|q: int| 0 <= q < r[i].source_roots.len() implies (#[trigger] r[i].source_roots[q]).files.dom().finite() by {
                    assert(list[n - 1].roots[q].files.dom().finite());
                }
            }
        }
        assert forall|e: int, f: u32| 0 <= e < n && (#[trigger] ws[list[e].workspace as int].files.file_exists(f)) implies in_roots(
            r[list[e].workspace as int].source_roots,
            f,
        ) by {
            let i = list[e].workspace as int;
            if i == at {
                assert(in_roots(entry.roots, f));
                if same_roots(before[at].source_roots, entry.roots) {
                    lemma_same_roots_hold(before[at].source_roots, entry.roots, f);
                }
            } else {
                assert(in_roots(before[i].source_roots, f));
            }
        }
    }
}

proof fn lemma_workspace_roots(ws: Seq<LoadedView>, n: int)
    requires
        0 <= n <= ws.len(),
    ensures
        forall|i: int, r: int|
            0 <= i < n && 0 <= r < ws[i].source_roots.len() ==> workspace_roots_to(ws, n).contains(
                #[trigger] ws[i].source_roots[r],
            ),
        forall|k: int|
            0 <= k < workspace_roots_to(ws, n).len() ==> is_workspace_root(ws, #[trigger] workspace_roots_to(ws, n)[k]),
    decreases n,
{
    if n > 0 {
        lemma_workspace_roots(ws, n - 1);
        let before = workspace_roots_to(ws, n - 1);
        let all = workspace_roots_to(ws, n);
        assert forall|i: int, r: int| 0 <= i < n && 0 <= r < ws[i].source_roots.len() implies all.contains(
            #[trigger] ws[i].source_roots[r],
        ) by {
            if i < n - 1 {
                assert(before.contains(ws[i].source_roots[r]));
                let k = before.index_of(ws[i].source_roots[r]);
                assert(all[k] == ws[i].source_roots[r]);
            } else {
                assert(all[before.len() + r] == ws[i].source_roots[r]);
            }
        }
        assert forall|k: int| 0 <= k < all.len() implies is_workspace_root(ws, #[trigger] all[k]) by {
            if k < before.len() {
                assert(all[k] == before[k]);
            } else {
                assert(all[k] == ws[n - 1].source_roots[k - before.len()]);
            }
        }
    }
}

spec fn is_workspace_root(ws: Seq<LoadedView>, root: RootView) -> bool {
    exists|i: int, r: int| 0 <= i < ws.len() && 0 <= r < ws[i].source_roots.len() && root == #[trigger] ws[i].source_roots[r]
}

/// The world with other workspaces, their source roots and new texts put into the inputs.
pub open spec fn with_workspaces(
    w: WorldView,
    ws: Seq<LoadedView>,
    differ: bool,
    texts: Seq<(u32, Option<Seq<char>>)>,
) -> WorldView {
    WorldView {
        base: BaseView { workspaces: ws, inputs: rerooted_inputs(w.base.inputs, ws, differ, texts), ..w.base },
        ..w
    }
}

/// The workspaces have the files they had; each has its old source roots, or new ones that hold the
/// files that exist, as the workspaces concerned do in any case.
pub open spec fn same_files(old_ws: Seq<LoadedView>, affected: Seq<usize>, ws: Seq<LoadedView>) -> bool {
    &&& ws.len() == old_ws.len()
    &&& forall|i: int| 0 <= i < ws.len() ==> (#[trigger] ws[i]).files == old_ws[i].files
    &&& forall|i: int|
        0 <= i < ws.len() ==> (#[trigger] ws[i]).source_roots == old_ws[i].source_roots || (covers(ws[i].files, ws[i].source_roots)
            && finite_roots(ws[i].source_roots))
    &&& forall|i: int, f: u32|
        0 <= i < ws.len() && affected.contains(i as usize) && #[trigger] ws[i].files.file_exists(f) ==> in_roots(
            ws[i].source_roots,
            f,
        )
}

pub open spec fn finite_roots(roots: Seq<RootView>) -> bool {
    forall|r: int| 0 <= r < roots.len() ==> (#[trigger] roots[r]).files.dom().finite()
}

/// The source roots of the workspaces list files under the numbers of their paths.
pub proof fn lemma_workspace_roots_named(ids: Map<Seq<char>, u32>, ws: Seq<LoadedView>, n: int)
    requires
        paths_agree(ids, ws),
        0 <= n <= ws.len(),
    ensures
        roots_named(ids, workspace_roots_to(ws, n)),
    decreases n,
{
    if n > 0 {
        lemma_workspace_roots_named(ids, ws, n - 1);
        reveal(paths_agree);
        assert(workspace_agrees(ids, ws[n - 1]));
        let front = workspace_roots_to(ws, n - 1);
        let all = workspace_roots_to(ws, n);
        assert forall|r: int, f: u32| 0 <= r < all.len() && #[trigger] all[r].files.contains_key(f) implies ids.contains_key(
            all[r].files[f].key,
        ) && ids[all[r].files[f].key] == f by {
            if r < front.len() {
                assert(front[r].files.contains_key(f));
            } else {
                assert(ws[n - 1].source_roots[r - front.len()].files.contains_key(f));
            }
        }
    }
}

/// Once the source roots of the workspaces and the new texts are in the inputs, the world is
/// well-formed again.
pub proof fn lemma_with_workspaces(s: NotedView, ws: Seq<LoadedView>, differ: bool)
    requires
        s.wf(),
        same_files(s.world.base.workspaces, s.affected, ws),
        workspace_roots(ws).len() <= ROOT_LIMIT,
        !differ ==> forall|i: int|
            0 <= i < ws.len() ==> (#[trigger] ws[i]).source_roots == s.world.base.workspaces[i].source_roots,
    ensures
        with_workspaces(s.world, ws, differ, s.texts).wf(s.next),
        with_workspaces(s.world, ws, differ, s.texts).base.inputs.roots.len() >= s.world.base.inputs.roots.len(),
{
    let w = s.world;
    let old_ws = w.base.workspaces;
    let inputs = w.base.inputs;
    let middle = if differ {
        inputs.with_roots(workspace_roots(ws))
    } else {
        inputs
    };
    let r = with_workspaces(w, ws, differ, s.texts);
    let all = workspace_roots(ws);
    lemma_workspace_roots(ws, ws.len() as int);
    if differ {
        lemma_with_roots(inputs, all);
    }
    assert(r.base.inputs == middle.with_texts(s.texts));
    assert(middle.texts == inputs.texts);
    // Texts and roots of single files.
    assert forall|f: u32|
        {
            &&& r.base.inputs.roots == middle.roots
            &&& r.base.inputs.file_roots == middle.file_roots
            &&& #[trigger] inputs.texts.contains_key(f) ==> r.base.inputs.texts.contains_key(f)
        } by {
        lemma_with_texts_any(middle, s.texts, f);
    }
    assert forall|f: u32| #[trigger] mentions(s.texts, f) implies r.base.inputs.texts.contains_key(f) by {
        lemma_with_texts_any(middle, s.texts, f);
    }
    assert(r.base.inputs.roots == middle.roots && r.base.inputs.file_roots == middle.file_roots) by {
        lemma_with_texts_any(middle, s.texts, 0);
    }
    assert forall|i: int, f: u32| 0 <= i < ws.len() && #[trigger] ws[i].files.file_exists(f) implies r.base.has_file(f) by {
        assert(old_ws[i].files.file_exists(f));
        if w.base.has_file(f) {
            assert(inputs.texts.contains_key(f));
        } else {
            assert(s.affected.contains(i as usize) && mentions(s.texts, f));
            assert(in_roots(ws[i].source_roots, f));
            let q = choose|q: int| 0 <= q < ws[i].source_roots.len() && #[trigger] ws[i].source_roots[q].files.contains_key(f);
            if differ {
                assert(ws[i].source_roots[q].files.contains_key(f));
                assert(all.contains(ws[i].source_roots[q]));
                let k = all.index_of(ws[i].source_roots[q]);
                assert(all[k].files.contains_key(f));
                assert(middle.file_roots.contains_key(f));
            } else {
                assert(ws[i].source_roots == old_ws[i].source_roots);
                assert(old_ws[i].source_roots[q].files.contains_key(f));
                assert(w.base.has_file(f));
            }
        }
    }
    assert forall|i: int, q: int, f: u32|
        0 <= i < ws.len() && 0 <= q < ws[i].source_roots.len() && #[trigger] ws[i].source_roots[q].files.contains_key(f) implies r.base.has_file(f) by {
        let lw = ws[i];
        if lw.source_roots == old_ws[i].source_roots {
            assert(old_ws[i].source_roots[q].files.contains_key(f));
            assert(w.base.has_file(f));
            assert(inputs.texts.contains_key(f));
        } else {
            assert(in_roots(lw.source_roots, f));
            assert(old_ws[i].files.file_exists(f));
            assert(ws[i].files.file_exists(f));
        }
    }
    assert forall|i: int, q: int| 0 <= i < ws.len() && 0 <= q < ws[i].source_roots.len() implies (#[trigger] ws[i].source_roots[q]).files.dom().finite() by {
        if ws[i].source_roots == old_ws[i].source_roots {
            assert(old_ws[i].source_roots[q].files.dom().finite());
        }
    }
    assert(r.base.inputs.readable()) by {
        assert forall|k: int, f: u32|
            0 <= k < r.base.inputs.roots.len() && #[trigger] r.base.inputs.roots[k].files.contains_key(f) implies r.base.inputs.texts.contains_key(f)
            && r.base.inputs.file_roots.contains_key(f) by {
            if k < inputs.roots.len() && middle.roots[k] == inputs.roots[k] {
                assert(inputs.roots[k].files.contains_key(f));
                assert(inputs.texts.contains_key(f));
            } else {
                assert(middle.roots[k] == all[k]);
                assert(is_workspace_root(ws, all[k]));
                let (i, q) = choose|i: int, q: int|
                    0 <= i < ws.len() && 0 <= q < ws[i].source_roots.len() && all[k] == #[trigger] ws[i].source_roots[q];
                assert(ws[i].source_roots[q].files.contains_key(f));
                assert(r.base.has_file(f));
            }
        }
        assert forall|k: int| 0 <= k < r.base.inputs.roots.len() implies (#[trigger] r.base.inputs.roots[k]).files.dom().finite() by {
            if k < inputs.roots.len() && middle.roots[k] == inputs.roots[k] {
                assert(inputs.roots[k].files.dom().finite());
            } else {
                assert(middle.roots[k] == all[k]);
                assert(is_workspace_root(ws, all[k]));
                let (i, q) = choose|i: int, q: int|
                    0 <= i < ws.len() && 0 <= q < ws[i].source_roots.len() && all[k] == #[trigger] ws[i].source_roots[q];
                assert(ws[i].source_roots[q].files.dom().finite());
            }
        }
        assert forall|f: u32| #[trigger] r.base.inputs.file_roots.contains_key(f) implies r.base.inputs.file_roots[f]
            < r.base.inputs.roots.len() by {
            assert(middle.file_roots.contains_key(f));
        }
    }
    assert(r.base.readable());
    assert(r.base.inputs.roots.len() >= inputs.roots.len());
    assert(crate::world::overlay_roots_known(r.overlays, r.base.inputs.roots.len())) by {
        assert forall|t: u64, k: Seq<char>|
            r.overlays.contains_key(t) && #[trigger] r.overlays[t].files.contains_key(k) implies r.overlays[t].files[k].base_source_root
            < r.base.inputs.roots.len() by {
            assert(w.overlays[t].files.contains_key(k));
        }
    }
    assert(crate::world::applied_sound(r, s.next)) by {
        assert forall|f: u32| #[trigger] r.applied.contains(f) implies f < s.next && r.base.inputs.texts.contains_key(f) by {
            assert(w.applied.contains(f));
            assert(inputs.texts.contains_key(f));
        }
        assert forall|t: u64, f: u32|
            r.overlays.contains_key(t) && #[trigger] r.overlays[t].path_by_file.contains_key(f) && r.applied.contains(f) implies r.base.inputs.texts[f]
            == r.overlays[t].files[r.overlays[t].path_by_file[f]].text by {
            assert(w.overlays[t].path_by_file.contains_key(f) && w.applied.contains(f));
            assert(!mentions(s.texts, f)) by {
                if mentions(s.texts, f) {
                    let i = choose|i: int| 0 <= i < s.texts.len() && (#[trigger] s.texts[i]).0 == f;
                    assert(w.overlays.contains_key(t));
                    assert(!w.overlays[t].path_by_file.contains_key(s.texts[i].0));
                }
            }
            lemma_with_texts_any(middle, s.texts, f);
        }
    }
    assert(paths_agree(r.file_ids, ws)) by {
        reveal(paths_agree);
        assert forall|i: int| 0 <= i < ws.len() implies workspace_agrees(r.file_ids, #[trigger] ws[i]) by {
            assert(workspace_agrees(w.file_ids, old_ws[i]));
            if ws[i].source_roots != old_ws[i].source_roots {
                lemma_covering_named(w.file_ids, ws[i].files, ws[i].source_roots);
            }
        }
    }
    assert(roots_listed(r.file_ids, r.base.inputs.roots, s.next)) by {
        if differ {
            lemma_workspace_roots_named(w.file_ids, ws, ws.len() as int);
            lemma_listed_named(w.file_ids, workspace_roots(ws), s.next);
            lemma_listed_merged(w.file_ids, inputs.roots, workspace_roots(ws), s.next);
        }
    }
    assert(crate::world::disk_numbers_apart(r, s.next)) by {
        assert forall|i: int, f: u32, t: u64|
            0 <= i < r.base.workspaces.len() && #[trigger] r.base.workspaces[i].files.contains_file(f) && r.overlays.contains_key(t) implies !#[trigger] r.overlays[t].path_by_file.contains_key(
            f,
        ) by {
            assert(old_ws[i].files.contains_file(f));
            assert(!w.overlays[t].path_by_file.contains_key(f));
        }
        assert forall|i: int, f: u32|
            0 <= i < r.base.workspaces.len() && #[trigger] r.base.workspaces[i].files.contains_file(f) implies f < s.next by {
            assert(old_ws[i].files.contains_file(f));
        }
        assert forall|i: int| 0 <= i < r.base.workspaces.len() implies (#[trigger] r.base.workspaces[i]).files.wf() by {
            assert(old_ws[i].files.wf());
        }
    }
}

/// Once the source roots are worked out anew, the world is well-formed again.
pub proof fn lemma_rerooted(s: NotedView, list: Seq<NewRootsView>)
    requires
        s.wf(),
        fitting(s.world.base.workspaces, s.affected, list),
        finite_entries(list),
        workspace_roots(rerooted_to(s.world.base.workspaces, list, list.len() as int)).len() <= ROOT_LIMIT,
    ensures
        rerooted(s.world, list, s.texts).wf(s.next),
{
    let old_ws = s.world.base.workspaces;
    let n = list.len() as int;
    let ws = rerooted_to(old_ws, list, n);
    let differ = roots_differ_to(old_ws, list, n);
    lemma_rerooted_to(old_ws, list, n);
    assert forall|i: int, f: u32|
        0 <= i < ws.len() && s.affected.contains(i as usize) && #[trigger] ws[i].files.file_exists(f) implies in_roots(
        ws[i].source_roots,
        f,
    ) by {
        let j = s.affected.index_of(i as usize);
        assert(has_entry(list, s.affected[j]));
        let e = choose|e: int| 0 <= e < list.len() && (#[trigger] list[e]).workspace == s.affected[j];
        assert(old_ws[list[e].workspace as int].files.file_exists(f));
    }
    lemma_with_workspaces(s, ws, differ);
    assert(rerooted(s.world, list, s.texts) == with_workspaces(s.world, ws, differ, s.texts));
}

/// Texts that are not mentioned stay, and texts that are mentioned are there.
pub proof fn lemma_with_texts_any(s: InputsView, changes: Seq<(u32, Option<Seq<char>>)>, f: u32)
    ensures
        ({
            let r = s.with_texts(changes);
            &&& r.roots == s.roots && r.file_roots == s.file_roots && r.local_roots == s.local_roots && r.library_roots
                == s.library_roots
            &&& s.texts.contains_key(f) ==> r.texts.contains_key(f)
            &&& mentions(changes, f) ==> r.texts.contains_key(f)
            &&& !mentions(changes, f) ==> r.texts[f] == s.texts[f] && r.texts.contains_key(f) == s.texts.contains_key(f)
        }),
    decreases changes.len(),
{
    if changes.len() > 0 {
        let rest = changes.drop_last();
        lemma_with_texts_any(s, rest, f);
        if mentions(rest, f) {
            let i = choose|i: int| 0 <= i < rest.len() && (#[trigger] rest[i]).0 == f;
            assert(changes[i].0 == f);
        }
        if changes.last().0 == f {
            assert(changes[changes.len() - 1].0 == f);
        }
        if mentions(changes, f) && changes.last().0 != f {
            let i = choose|i: int| 0 <= i < changes.len() && (#[trigger] changes[i]).0 == f;
            assert(rest[i].0 == f);
        }
    }
}

fn equal_roots(a: &Vec<SourceRoot>, b: &Vec<SourceRoot>) -> (r: bool)
    ensures
        r == same_roots(root_views(a@), root_views(b@)),
{
    if a.len() != b.len() {
        return false;
    }
    let ghost (x, y) = (root_views(a@), root_views(b@));
    let mut i: usize = 0;
    while i < a.len()
        invariant
            i <= a.len(),
            a.len() == b.len(),
            x == root_views(a@),
            y == root_views(b@),
            forall|j: int| 0 <= j < i ==> same_root(#[trigger] x[j], y[j]),
        decreases a.len() - i,
    {
        proof {
            assert(x[i as int] == a@[i as int]@ && y[i as int] == b@[i as int]@);
        }
        if !a[i].same(&b[i]) {
            return false;
        }
        i = i + 1;
    }
    true
}

fn set_roots(workspace: &mut LoadedWorkspace, roots: Vec<SourceRoot>, parents: FxHashMap<u32, u32>)
    ensures
        final(workspace)@ == (LoadedView { source_roots: root_views(roots@), parents: parents@, ..old(workspace)@ }),
{
    workspace.source_roots = roots;
    workspace.source_root_parent_map = parents;
}

/// What the database is to be told of changes on disk.
#[derive(Debug)]
pub struct DiskChange {
    pub roots: Option<RootChange>,
    pub texts: Vec<(u32, Option<String>)>,
}

impl SharedWorld {
    /// The source roots of all workspaces, one workspace after another.
    pub fn workspace_source_roots(&self) -> (r: Vec<SourceRoot>)
        ensures
            root_views(r@) == workspace_roots(self@.base.workspaces),
    {
        let ghost ws = self@.base.workspaces;
        let mut r: Vec<SourceRoot> = Vec::new();
        let mut i: usize = 0;
        proof {
            assert(root_views(r@) =~= workspace_roots_to(ws, 0));
        }
        while i < self.base.workspaces.len()
            invariant
                i <= self.base.workspaces.len(),
                ws == self@.base.workspaces,
                root_views(r@) == workspace_roots_to(ws, i as int),
            decreases self.base.workspaces.len() - i,
        {
            let roots = &self.base.workspaces[i].source_roots;
            let ghost own = root_views(roots@);
            let ghost start = root_views(r@);
            let mut k: usize = 0;
            proof {
                assert(ws[i as int] == self.base.workspaces@[i as int]@);
                assert(root_views(r@) =~= start + own.take(0));
            }
            while k < roots.len()
                invariant
                    k <= roots.len(),
                    own == root_views(roots@),
                    root_views(r@) == start + own.take(k as int),
                decreases roots.len() - k,
            {
                let root = roots[k].duplicate();
                let ghost before = root_views(r@);
                let ghost view = root@;
                r.push(root);
                proof {
                    assert(root_views(r@) =~= before.push(view));
                    assert(root_views(r@) =~= start + own.take(k + 1));
                }
                k = k + 1;
            }
            proof {
                assert(own.take(k as int) =~= own);
            }
            i = i + 1;
        }
        r
    }

    /// Puts the source roots of the workspaces concerned and the new texts into the world, and
    /// lists what the database is to be told. Roots are told where some workspace has others.
    pub fn set_workspace_roots(&mut self, noted: NotedChanges, list: Vec<NewRoots>, ids: &SharedFileIds) -> (r: DiskChange)
        requires
            noted_view(*old(self), *ids, noted).wf(),
            fitting(old(self)@.base.workspaces, noted.affected@, new_roots_views(list@)),
            workspace_roots(
                rerooted_to(old(self)@.base.workspaces, new_roots_views(list@), list@.len() as int),
            ).len() <= ROOT_LIMIT,
        ensures
            final(self)@ == rerooted(old(self)@, new_roots_views(list@), noted.texts.deep_view()),
            final(self)@.wf(ids.next),
            r.texts.deep_view() == noted.texts.deep_view(),
            r.roots is Some <==> roots_differ_to(old(self)@.base.workspaces, new_roots_views(list@), list@.len() as int),
            r.roots matches Some(roots) ==> roots.describes(
                old(self)@.base.inputs,
                workspace_roots(final(self)@.base.workspaces),
            ),
    {
        let ghost w = self@;
        let ghost ws = self@.base.workspaces;
        let ghost views = new_roots_views(list@);
        let ghost total = list@.len() as int;
        proof {
            assert(finite_entries(views)) by {
                assert forall|e: int, r: int| 0 <= e < views.len() && 0 <= r < views[e].roots.len() implies (#[trigger] views[e].roots[r]).files.dom().finite() by {
                    list@[e].roots@[r].files.lemma_domain_sorted();
                    assert(views[e].roots[r].files.dom() =~= list@[e].roots@[r].files@.dom());
                }
            }
            lemma_rerooted(noted_view(*self, *ids, noted), views);
        }
        let ghost whole = list@;
        let mut list = list;
        let mut differ = false;
        let ghost mut i: int = 0;
        proof {
            assert(whole.skip(0) =~= whole);
        }
        while list.len() > 0
            invariant
                0 <= i <= total,
                total == whole.len(),
                list@ == whole.skip(i),
                views == new_roots_views(whole),
                forall|e: int| 0 <= e < views.len() ==> (#[trigger] views[e]).workspace < ws.len(),
                self.base.workspaces.len() == ws.len(),
                self@ == (WorldView {
                    base: BaseView { workspaces: rerooted_to(ws, views, i), ..w.base },
                    ..w
                }),
                rerooted_to(ws, views, i).len() == ws.len(),
                differ == roots_differ_to(ws, views, i),
            decreases list.len(),
        {
            let entry = list.remove(0);
            let at: usize = entry.workspace;
            let ghost here = self@.base.workspaces;
            proof {
                assert(whole.skip(i)[0] == whole[i]);
                assert(views[i] == entry@);
                assert(whole.skip(i).remove(0) =~= whole.skip(i + 1));
                assert(here[at as int] == self.base.workspaces@[at as int]@);
            }
            if !equal_roots(&self.base.workspaces[at].source_roots, &entry.roots) {
                let NewRoots { workspace: _, roots, parents } = entry;
                set_roots(&mut self.base.workspaces[at], roots, parents);
                differ = true;
                proof {
                    assert(self@.base.workspaces =~= here.update(
                        at as int,
                        LoadedView { source_roots: views[i].roots, parents: views[i].parents, ..here[at as int] },
                    ));
                }
            }
            proof {
                assert(self@.base.workspaces =~= rerooted_to(ws, views, i + 1));
                i = i + 1;
            }
        }
        let mut change: Option<RootChange> = None;
        if differ {
            let roots = self.workspace_source_roots();
            change = Some(self.base.inputs.apply_source_roots(roots));
        }
        self.base.inputs.set_texts(&noted.texts);
        proof {
            assert(i == total);
            assert(self@ =~= rerooted(w, views, noted.texts.deep_view()));
        }
        DiskChange { roots: change, texts: noted.texts }
    }

    fn any_overlay_files(&self) -> (r: bool)
        ensures
            r == any_overlaid(self@),
    {
        let n = self.overlays.len();
        let mut i: usize = 0;
        while i < n
            invariant
                i <= n,
                n == self.overlays.keys().len(),
                listed(self.overlays),
                forall|j: int| 0 <= j < i ==> self@.overlays[#[trigger] self.overlays.keys()[j]].files == Map::<Seq<char>, OverlayFileView>::empty(),
            decreases n - i,
        {
            let overlay = self.overlays.value_at(i);
            let ghost session = self.overlays.keys()[i as int];
            proof {
                assert(self.overlays@.contains_key(self.overlays.keys()[i as int]));
                assert(self@.overlays[session] == overlay@);
            }
            let empty = overlay.files_by_path.is_empty();
            proof {
                if empty {
                    assert(overlay@.files =~= Map::<Seq<char>, OverlayFileView>::empty());
                } else {
                    assert(overlay@.files != Map::<Seq<char>, OverlayFileView>::empty()) by {
                        if overlay@.files == Map::<Seq<char>, OverlayFileView>::empty() {
                            assert(overlay@.files.dom() =~= overlay.files_by_path@.dom());
                            assert(overlay.files_by_path@ =~= Map::empty());
                        }
                    }
                }
            }
            if !empty {
                proof {
                    assert(self@.overlays.contains_key(session));
                }
                return true;
            }
            i = i + 1;
        }
        proof {
            assert forall|s: u64| #[trigger] self@.overlays.contains_key(s) implies self@.overlays[s].files == Map::<Seq<char>, OverlayFileView>::empty() by {
                assert(self.overlays@.contains_key(s));
                let j = self.overlays.keys().index_of(s);
                assert(self.overlays.keys()[j] == s);
            }
        }
        false
    }

    /// Ends a list of changes to files on disk. Where line endings or the database have changed,
    /// the overlays are made anew, if there are files in any, and the inputs count as changed.
    pub fn finish_file_changes(
        &mut self,
        endings_changed: bool,
        database_changed: bool,
        classes: &Classification,
        ids: &mut SharedFileIds,
    ) -> (r: Result<Vec<SharedOverlaySync>, OutOfFileNumbers>)
        requires
            old(self)@.wf(old(ids).next),
            all_classified(old(self)@, classes@),
        ensures
            r is Ok <==> ((endings_changed || database_changed) && any_overlaid(old(self)@) ==> all_recones_fit(
                old(self)@,
                old(ids).next,
                classes@,
            )),
            r is Ok ==> (final(self)@, final(ids).next) == finished(
                old(self)@,
                old(ids).next,
                classes@,
                endings_changed || database_changed,
            ),
            r matches Ok(list) ==> (if (endings_changed || database_changed) && any_overlaid(old(self)@) {
                are_recones(list@, old(self)@, old(ids).next, classes@)
            } else {
                list@.len() == 0
            }),
            r is Err ==> recones_stopped(old(self)@, old(ids).next, classes@, (final(self)@, final(ids).next)),
            final(self)@.wf(final(ids).next),
            r is Err ==> final(self)@.input_generation == old(self)@.input_generation,
    {
        let mut r: Vec<SharedOverlaySync> = Vec::new();
        if endings_changed || database_changed {
            if self.any_overlay_files() {
                match self.recone_session_overlays(classes, ids) {
                    Ok(list) => {
                        r = list;
                    },
                    Err(error) => {
                        proof {
                            let n = choose|n: int|
                                0 <= n < sorted_keys::<u64>(old(self)@.overlays.dom()).len() && !#[trigger] recone_fits(
                                    old(self)@,
                                    old(ids).next,
                                    classes@,
                                    n,
                                ) && (self@, ids.next) == reconed_to(old(self)@, old(ids).next, classes@, n);
                            lemma_reconed_generations(old(self)@, old(ids).next, classes@, n);
                        }
                        return Err(error);
                    },
                }
            }
            proof {
                lemma_generation_free(self@, (self@.input_generation.wrapping_add(1)), ids.next);
            }
            self.input_generation = self.input_generation.wrapping_add(1);
        }
        Ok(r)
    }
}

/// Some session has files in its overlay.
pub open spec fn any_overlaid(w: WorldView) -> bool {
    exists|s: u64| #[trigger] w.overlays.contains_key(s) && w.overlays[s].files != Map::<Seq<char>, OverlayFileView>::empty()
}

/// The world, and the next file number, at the end of a list of changes to files on disk.
pub open spec fn finished(w: WorldView, next: u32, classes: Map<Seq<char>, Seq<Option<bool>>>, changed: bool) -> (WorldView, u32) {
    if changed {
        let r = if any_overlaid(w) {
            reconed(w, next, classes)
        } else {
            (w, next)
        };
        (WorldView { input_generation: r.0.input_generation.wrapping_add(1), ..r.0 }, r.1)
    } else {
        (w, next)
    }
}

proof fn lemma_generation_free(w: WorldView, generation: u64, next: u32)
    requires
        w.wf(next),
    ensures
        (WorldView { input_generation: generation, ..w }).wf(next),
{
}

} // verus!
