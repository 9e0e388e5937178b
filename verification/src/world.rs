//! A world: workspaces loaded once, and the sessions that look at them.
use crate::base::{base_file, BaseView, LoadedView, WorldBase};
use crate::file_ids::{distinct_below, SharedBaseFileIds, MAX_ANALYZED_FILE_ID};
use crate::files::FilesView;
use crate::fx::fx_set;
use crate::inputs::{AnalysisInputs, InputsView, RootView};
use crate::overlay::{overlay_views, ActiveSessionOverlay, OverlayView};
use crate::overlay_build::numbers_below;
use crate::ordered::OrderedMap;
use rustc_hash::FxHashSet;
use vstd::prelude::*;

verus! {

/// The workspaces that a session looks at, and whether it has yet to take notice of a change to
/// them.
#[derive(Debug)]
pub struct WorkspaceUpdate {
    pub workspace_indexes: Vec<usize>,
    pub pending: bool,
}

#[verifier::ext_equal]
pub struct UpdateView {
    pub workspace_indexes: Seq<usize>,
    pub pending: bool,
}

impl View for WorkspaceUpdate {
    type V = UpdateView;

    open spec fn view(&self) -> UpdateView {
        UpdateView { workspace_indexes: self.workspace_indexes@, pending: self.pending }
    }
}

pub open spec fn update_views(updates: Map<u64, WorkspaceUpdate>) -> Map<u64, UpdateView> {
    updates.map_values(|u: WorkspaceUpdate| u@)
}

pub struct SharedWorld {
    pub base: WorldBase,
    pub base_file_ids: SharedBaseFileIds,
    /// The place of each workspace, by the key that it was loaded under.
    pub workspace_indexes: OrderedMap<String, usize>,
    /// The last source root with files on disk.
    pub base_max_source_root: Option<u32>,
    pub overlays: OrderedMap<u64, ActiveSessionOverlay>,
    pub updates: OrderedMap<u64, WorkspaceUpdate>,
    pub input_generation: u64,
    pub workspace_generation: u64,
    /// The overlay files whose text the database has.
    pub applied_overlay_files: FxHashSet<u32>,
    pub next_session_id: u64,
}

#[verifier::ext_equal]
pub struct WorldView {
    pub base: BaseView,
    pub file_ids: Map<Seq<char>, u32>,
    pub workspace_indexes: Map<Seq<char>, usize>,
    pub max_root: Option<u32>,
    pub overlays: Map<u64, OverlayView>,
    pub updates: Map<u64, UpdateView>,
    pub input_generation: u64,
    pub workspace_generation: u64,
    pub applied: Set<u32>,
    pub next_session_id: u64,
}

impl View for SharedWorld {
    type V = WorldView;

    open spec fn view(&self) -> WorldView {
        WorldView {
            base: self.base@,
            file_ids: self.base_file_ids.ids@,
            workspace_indexes: self.workspace_indexes@,
            max_root: self.base_max_source_root,
            overlays: overlay_views(self.overlays@),
            updates: update_views(self.updates@),
            input_generation: self.input_generation,
            workspace_generation: self.workspace_generation,
            applied: self.applied_overlay_files@,
            next_session_id: self.next_session_id,
        }
    }
}

/// Source roots on disk have numbers below this one.
pub const ROOT_LIMIT: u32 = 0x8000_0000;

/// Numbers of overlay files are given once: each overlay is sound, its numbers are among those
/// given so far, and no number is in two overlays.
pub open spec fn overlays_sound(overlays: Map<u64, OverlayView>, next: u32) -> bool {
    &&& overlays.dom().finite()
    &&& forall|s: u64|
        #[trigger] overlays.contains_key(s) ==> {
            &&& overlays[s].wf()
            &&& numbers_below(overlays[s], next)
            &&& overlays[s].files.dom().finite()
            &&& overlays[s].path_by_file.dom().finite()
        }
    &&& forall|s: u64, t: u64, f: u32|
        s != t && overlays.contains_key(s) && overlays.contains_key(t) && #[trigger] overlays[s].path_by_file.contains_key(f)
            ==> !#[trigger] overlays[t].path_by_file.contains_key(f)
}

/// The files in the overlays belong to source roots that are there.
pub open spec fn overlay_roots_known(overlays: Map<u64, OverlayView>, n: nat) -> bool {
    forall|s: u64, k: Seq<char>|
        overlays.contains_key(s) && #[trigger] overlays[s].files.contains_key(k) ==> overlays[s].files[k].base_source_root < n
}

/// What the database is believed to have for an overlay file is what it has.
pub open spec fn applied_sound(w: WorldView, next: u32) -> bool {
    &&& forall|f: u32| #[trigger] w.applied.contains(f) ==> f < next && w.base.inputs.texts.contains_key(f)
    &&& forall|s: u64, f: u32|
        w.overlays.contains_key(s) && #[trigger] w.overlays[s].path_by_file.contains_key(f) && w.applied.contains(f)
            ==> w.base.inputs.texts[f] == w.overlays[s].files[w.overlays[s].path_by_file[f]].text
}

/// The database has the text of every overlay file.
pub open spec fn all_applied(w: WorldView) -> bool {
    forall|s: u64, f: u32|
        w.overlays.contains_key(s) && #[trigger] w.overlays[s].path_by_file.contains_key(f) ==> w.applied.contains(f)
}

/// Files on disk have numbers that were given to them, and no overlay has such a number.
pub open spec fn disk_numbers_apart(w: WorldView, next: u32) -> bool {
    &&& forall|i: int, f: u32|
        0 <= i < w.base.workspaces.len() && #[trigger] w.base.workspaces[i].files.contains_file(f) ==> f < next
    &&& forall|i: int, f: u32, s: u64|
        0 <= i < w.base.workspaces.len() && #[trigger] w.base.workspaces[i].files.contains_file(f) && w.overlays.contains_key(s)
            ==> !#[trigger] w.overlays[s].path_by_file.contains_key(f)
    &&& forall|i: int| 0 <= i < w.base.workspaces.len() ==> (#[trigger] w.base.workspaces[i]).files.wf()
}

/// Paths have numbers that were given to them, different paths different ones, and no overlay has
/// such a number.
pub open spec fn file_ids_sound(w: WorldView, next: u32) -> bool {
    &&& distinct_below(w.file_ids, next)
    &&& forall|k: Seq<char>, s: u64|
        #[trigger] w.file_ids.contains_key(k) && #[trigger] w.overlays.contains_key(s) ==> !w.overlays[s].path_by_file.contains_key(
            w.file_ids[k],
        )
}

/// Files are held under the numbers given to their paths, and every file is found under its path.
pub open spec fn files_agree(ids: Map<Seq<char>, u32>, files: FilesView) -> bool {
    &&& forall|k: Seq<char>| #[trigger] files.by_path.contains_key(k) ==> ids.contains_key(k) && ids[k] == files.by_path[k]
    &&& forall|f: u32|
        #[trigger] files.by_id.contains_key(f) ==> files.by_path.contains_key(files.by_id[f].path.key)
            && files.by_path[files.by_id[f].path.key] == f
}

/// Source roots list files under the numbers given to their paths.
pub open spec fn roots_named(ids: Map<Seq<char>, u32>, roots: Seq<RootView>) -> bool {
    forall|r: int, f: u32|
        0 <= r < roots.len() && #[trigger] roots[r].files.contains_key(f) ==> ids.contains_key(roots[r].files[f].key)
            && ids[roots[r].files[f].key] == f
}

pub open spec fn workspace_agrees(ids: Map<Seq<char>, u32>, lw: LoadedView) -> bool {
    files_agree(ids, lw.files) && roots_named(ids, lw.source_roots)
}

/// A path has one number: all workspaces, and their source roots, hold it under the number that was
/// given to it.
#[verifier::opaque]
pub open spec fn paths_agree(ids: Map<Seq<char>, u32>, ws: Seq<LoadedView>) -> bool {
    forall|i: int| 0 <= i < ws.len() ==> workspace_agrees(ids, #[trigger] ws[i])
}

/// Source roots hold numbers that were given, and list files on disk under their own paths.
#[verifier::opaque]
pub open spec fn roots_listed(ids: Map<Seq<char>, u32>, roots: Seq<RootView>, next: u32) -> bool {
    forall|r: int, f: u32|
        0 <= r < roots.len() && #[trigger] roots[r].files.contains_key(f) ==> f < next && listed_under(ids, f, roots[r].files[f].key)
}

/// A number that was given to a path is listed under that path.
pub open spec fn listed_under(ids: Map<Seq<char>, u32>, f: u32, key: Seq<char>) -> bool {
    forall|k: Seq<char>| #[trigger] ids.contains_key(k) && ids[k] == f ==> k == key
}

/// More numbers may have been given since.
pub proof fn lemma_listed_later(ids: Map<Seq<char>, u32>, roots: Seq<RootView>, next: u32, later: u32)
    requires
        roots_listed(ids, roots, next),
        next <= later,
    ensures
        roots_listed(ids, roots, later),
{
    reveal(roots_listed);
}

/// A new number is in no source root yet.
pub proof fn lemma_listed_given(ids: Map<Seq<char>, u32>, roots: Seq<RootView>, next: u32, key: Seq<char>)
    requires
        roots_listed(ids, roots, next),
        next < u32::MAX,
    ensures
        roots_listed(ids.insert(key, next), roots, (next + 1) as u32),
{
    reveal(roots_listed);
    assert forall|r: int, f: u32| 0 <= r < roots.len() && #[trigger] roots[r].files.contains_key(f) implies f < next + 1
        && listed_under(ids.insert(key, next), f, roots[r].files[f].key) by {
        assert(listed_under(ids, f, roots[r].files[f].key));
        assert forall|k: Seq<char>| #[trigger] ids.insert(key, next).contains_key(k) && ids.insert(key, next)[k] == f implies k
            == roots[r].files[f].key by {
            assert(ids.contains_key(k));
        }
    }
}

/// What replaces source roots, and what stays of them, are roots of either list.
pub proof fn lemma_listed_merged(ids: Map<Seq<char>, u32>, old_roots: Seq<RootView>, new_roots: Seq<RootView>, next: u32)
    requires
        roots_listed(ids, old_roots, next),
        roots_listed(ids, new_roots, next),
    ensures
        roots_listed(ids, crate::inputs::merged(old_roots, new_roots), next),
{
    reveal(roots_listed);
}

/// Source roots that list files under the numbers of their paths.
pub proof fn lemma_listed_named(ids: Map<Seq<char>, u32>, roots: Seq<RootView>, next: u32)
    requires
        distinct_below(ids, next),
        roots_named(ids, roots),
    ensures
        roots_listed(ids, roots, next),
{
    reveal(roots_listed);
    assert forall|r: int, f: u32| 0 <= r < roots.len() && #[trigger] roots[r].files.contains_key(f) implies f < next
        && listed_under(ids, f, roots[r].files[f].key) by {
        assert(ids.contains_key(roots[r].files[f].key));
    }
}

/// The number that a workspace in view has for a path is the one that was given to the path.
pub proof fn lemma_base_file_number(ids: Map<Seq<char>, u32>, ws: Seq<LoadedView>, indexes: Seq<usize>, key: Seq<char>)
    requires
        paths_agree(ids, ws),
    ensures
        base_file(ws, indexes, key) matches Some(f) ==> ids.contains_key(key) && ids[key] == f,
    decreases indexes.len(),
{
    if indexes.len() > 0 {
        let i = indexes[0] as int;
        if i < ws.len() && ws[i].files.file_id(key) is Some {
            reveal(paths_agree);
            assert(workspace_agrees(ids, ws[i]));
            assert(ws[i].files.by_path.contains_key(key));
        } else {
            lemma_base_file_number(ids, ws, indexes.drop_first(), key);
        }
    }
}

/// The file under a number that was given to a path has that path.
pub proof fn lemma_path_of_number(ids: Map<Seq<char>, u32>, next: u32, files: FilesView, key: Seq<char>)
    requires
        distinct_below(ids, next),
        files_agree(ids, files),
        ids.contains_key(key),
        files.by_id.contains_key(ids[key]),
    ensures
        files.by_id[ids[key]].path.key == key,
        files.by_path.contains_key(key),
        files.by_path[key] == ids[key],
{
    let other = files.by_id[ids[key]].path.key;
    assert(files.by_path.contains_key(other));
    assert(ids.contains_key(other) && ids[other] == ids[key]);
}

impl WorldView {
    /// All of the above, but for the database knowing every file that exists and being up to date
    /// with the overlays.
    pub open spec fn sound_roots(self, next: u32) -> bool {
        &&& self.base.roots_readable()
        &&& self.max_root matches Some(max) ==> max < self.base.inputs.roots.len() && max < ROOT_LIMIT
        &&& next <= MAX_ANALYZED_FILE_ID + 1
        &&& overlays_sound(self.overlays, next)
        &&& overlay_roots_known(self.overlays, self.base.inputs.roots.len())
        &&& applied_sound(self, next)
        &&& disk_numbers_apart(self, next)
        &&& file_ids_sound(self, next)
        &&& paths_agree(self.file_ids, self.base.workspaces)
        &&& roots_listed(self.file_ids, self.base.inputs.roots, next)
        &&& forall|k: Seq<char>|
            #[trigger] self.workspace_indexes.contains_key(k) ==> self.workspace_indexes[k] < self.base.workspaces.len()
    }

    /// All of the above, but for the database being up to date with the overlays.
    pub open spec fn sound(self, next: u32) -> bool {
        &&& self.base.readable()
        &&& self.sound_roots(next)
    }

    /// What holds of a world between any two operations, where the file numbers given so far are
    /// those below `next`.
    pub open spec fn wf(self, next: u32) -> bool {
        &&& self.sound(next)
        &&& all_applied(self)
    }
}

impl SharedWorld {
    pub fn new() -> (r: Self)
        ensures
            r@ == (WorldView {
                base: BaseView {
                    workspaces: Seq::empty(),
                    inputs: InputsView {
                        texts: Map::empty(),
                        file_roots: Map::empty(),
                        roots: Seq::empty(),
                        local_roots: Set::empty(),
                        library_roots: Set::empty(),
                    },
                    crates: Seq::empty(),
                },
                file_ids: Map::empty(),
                workspace_indexes: Map::empty(),
                max_root: None,
                overlays: Map::empty(),
                updates: Map::empty(),
                input_generation: 0,
                workspace_generation: 0,
                applied: Set::empty(),
                next_session_id: 1,
            }),
            forall|next: u32| next <= MAX_ANALYZED_FILE_ID + 1 ==> #[trigger] r@.wf(next),
            forall|next: u32| #[trigger] crate::rooting::rooted_in_list(r@, next),
            forall|view: Seq<usize>| #[trigger] crate::own_files::rooted_on_disk(r@, view),
    {
        let r = SharedWorld {
            base: WorldBase { workspaces: Vec::new(), inputs: AnalysisInputs::new(), base_crates: Vec::new() },
            base_file_ids: SharedBaseFileIds::new(),
            workspace_indexes: OrderedMap::new(),
            base_max_source_root: None,
            overlays: OrderedMap::new(),
            updates: OrderedMap::new(),
            input_generation: 0,
            workspace_generation: 0,
            applied_overlay_files: fx_set(),
            next_session_id: 1,
        };
        proof {
            assert(r@.base.workspaces =~= Seq::empty());
            assert(r@.base.crates =~= Seq::empty());
            assert(r@.overlays =~= Map::empty());
            assert(r@.updates =~= Map::empty());
            reveal(paths_agree);
            reveal(roots_listed);
        }
        r
    }
}

} // verus!
