//! Ending the loading of several workspaces, or of build data and macros.
use crate::base::LoadedView;
use crate::commit::{
    complete, nothing_noted, lemma_nothing_noted, rooted, workspace_roots_views, BaseInputs, WorkspaceRoots,
};
use crate::disk::{noted_view, NotedChanges, NotedView};
use crate::disk_roots::{with_workspaces, workspace_roots};
use crate::file_ids::SharedFileIds;
use crate::load::ProcMacroLoadState;
use crate::macros::{invalidated_to, same_shape, with_loaded};
use crate::spawn::SpawnConfig;
use crate::spawn_key::ProcMacroSpawnKey;
use crate::world::{SharedWorld, WorldView, ROOT_LIMIT};
use vstd::prelude::*;

verus! {

/// What is known stays sound when nothing but projects, macros and the like changes.
proof fn lemma_noted_same_shape(s: NotedView, ws: Seq<LoadedView>)
    requires
        s.wf(),
        same_shape(ws, s.world.base.workspaces),
    ensures
        (NotedView { world: with_loaded(s.world, ws), ..s }).wf(),
{
    let w = s.world;
    let old_ws = w.base.workspaces;
    let r = NotedView { world: with_loaded(w, ws), ..s };
    assert forall|i: int| 0 <= i < ws.len() implies (#[trigger] ws[i]).files == old_ws[i].files && ws[i].source_roots
        == old_ws[i].source_roots by {}
    assert(r.world.base.roots_readable()) by {
        assert forall|i: int, q: int, f: u32|
            0 <= i < ws.len() && 0 <= q < ws[i].source_roots.len() && #[trigger] ws[i].source_roots[q].files.contains_key(f) implies r.world.base.has_file(f) by {
            assert(old_ws[i].source_roots[q].files.contains_key(f));
            assert(w.base.has_file(f));
        }
        assert forall|i: int, q: int| 0 <= i < ws.len() && 0 <= q < ws[i].source_roots.len() implies (#[trigger] ws[i].source_roots[q]).files.dom().finite() by {
            assert(old_ws[i].source_roots[q].files.dom().finite());
        }
    }
    assert(crate::world::paths_agree(w.file_ids, ws)) by {
        reveal(crate::world::paths_agree);
        assert forall|i: int| 0 <= i < ws.len() implies crate::world::workspace_agrees(w.file_ids, #[trigger] ws[i]) by {
            assert(crate::world::workspace_agrees(w.file_ids, old_ws[i]));
        }
    }
    assert(crate::world::disk_numbers_apart(r.world, r.next)) by {
        assert forall|i: int, f: u32, t: u64|
            0 <= i < ws.len() && #[trigger] ws[i].files.contains_file(f) && r.world.overlays.contains_key(t) implies !#[trigger] r.world.overlays[t].path_by_file.contains_key(
            f,
        ) by {
            assert(old_ws[i].files.contains_file(f));
            assert(!w.overlays[t].path_by_file.contains_key(f));
        }
        assert forall|i: int, f: u32| 0 <= i < ws.len() && #[trigger] ws[i].files.contains_file(f) implies f < r.next by {
            assert(old_ws[i].files.contains_file(f));
        }
        assert forall|i: int| 0 <= i < ws.len() implies (#[trigger] ws[i]).files.wf() by {
            assert(old_ws[i].files.wf());
        }
    }
    assert forall|i: int, f: u32| 0 <= i < ws.len() && #[trigger] ws[i].files.file_exists(f) implies r.world.base.has_file(f) || (
    r.affected.contains(i as usize) && crate::disk::mentions(r.texts, f)) by {
        assert(old_ws[i].files.file_exists(f));
        assert(w.base.has_file(f) || (s.affected.contains(i as usize) && crate::disk::mentions(s.texts, f)));
    }
}

/// The workspaces after a batch: macros of others that share a server with it are invalid.
pub open spec fn batch_workspaces(
    w: WorldView,
    indexes: Seq<usize>,
    keys: Seq<crate::spawn_key::SpawnKeyView>,
    config: crate::spawn::SpawnConfigView,
    macros: Seq<u64>,
    state: ProcMacroLoadState,
) -> Seq<LoadedView> {
    invalidated_to(w.base.workspaces, indexes, keys, config, macros, state, w.base.workspaces.len() as int)
}

impl SharedWorld {
    /// Puts the source roots of workspaces that were placed into the inputs, with their texts, and
    /// invalidates the macros of other workspaces that share a server with them.
    pub fn commit_workspace_batch(
        &mut self,
        noted: NotedChanges,
        list: Vec<WorkspaceRoots>,
        workspace_indexes: &Vec<usize>,
        reload_keys: &Vec<ProcMacroSpawnKey>,
        config: &SpawnConfig,
        macros: &Vec<u64>,
        state: ProcMacroLoadState,
        ids: &SharedFileIds,
    ) -> (r: BaseInputs)
        requires
            noted_view(*old(self), *ids, noted).wf(),
            macros@.len() == old(self)@.base.workspaces.len(),
            complete(old(self)@.base.workspaces, noted.affected@, workspace_roots_views(list@)),
            workspace_roots(
                rooted(
                    batch_workspaces(old(self)@, workspace_indexes@, reload_keys.deep_view(), config@, macros@, state),
                    workspace_roots_views(list@),
                ),
            ).len() <= ROOT_LIMIT,
        ensures
            final(self)@ == with_workspaces(
                old(self)@,
                rooted(
                    batch_workspaces(old(self)@, workspace_indexes@, reload_keys.deep_view(), config@, macros@, state),
                    workspace_roots_views(list@),
                ),
                true,
                noted.texts.deep_view(),
            ),
            final(self)@.wf(ids.next),
            r.texts.deep_view() == noted.texts.deep_view(),
            r.roots.describes(old(self)@.base.inputs, workspace_roots(final(self)@.base.workspaces)),
    {
        let ghost w = self@;
        let ghost s = noted_view(*self, *ids, noted);
        self.invalidate_proc_macro_groups(workspace_indexes, reload_keys, config, macros, state);
        proof {
            let ws = self@.base.workspaces;
            let views = workspace_roots_views(list@);
            lemma_noted_same_shape(s, ws);
            assert(noted_view(*self, *ids, noted) =~= (NotedView { world: with_loaded(w, ws), ..s }));
            assert(complete(ws, noted.affected@, views)) by {
                assert forall|e: int| 0 <= e < views.len() implies crate::disk_roots::covers(
                    ws[(#[trigger] views[e]).workspace as int].files,
                    views[e].roots,
                ) by {
                    assert(ws[views[e].workspace as int].files == w.base.workspaces[views[e].workspace as int].files);
                }
            }
        }
        self.apply_base_inputs(noted, list, ids)
    }

    /// Puts the source roots of all workspaces into the inputs, some of them worked out anew.
    pub fn apply_staged_inputs(&mut self, list: Vec<WorkspaceRoots>, ids: &SharedFileIds) -> (r: BaseInputs)
        requires
            old(self)@.wf(ids.next),
            complete(old(self)@.base.workspaces, Seq::empty(), workspace_roots_views(list@)),
            workspace_roots(rooted(old(self)@.base.workspaces, workspace_roots_views(list@))).len() <= ROOT_LIMIT,
        ensures
            final(self)@ == with_workspaces(
                old(self)@,
                rooted(old(self)@.base.workspaces, workspace_roots_views(list@)),
                true,
                Seq::empty(),
            ),
            final(self)@.wf(ids.next),
            r.texts@.len() == 0,
            r.roots.describes(old(self)@.base.inputs, workspace_roots(final(self)@.base.workspaces)),
    {
        let noted = NotedChanges { texts: Vec::new(), endings_changed: false, affected: Vec::new() };
        let count = self.base.workspaces.len();
        proof {
            assert(self@.base.workspaces.len() == count);
            assert(noted.texts.deep_view() =~= Seq::empty());
            assert(noted.affected@ =~= Seq::empty());
            assert(noted_view(*self, *ids, noted) =~= nothing_noted(self@, ids.next));
            lemma_nothing_noted(self@, ids.next);
        }
        let r = self.apply_base_inputs(noted, list, ids);
        proof {
            assert(r.texts.deep_view().len() == r.texts@.len());
        }
        r
    }
}

} // verus!
