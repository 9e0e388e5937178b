//! Putting the source roots of workspaces into the inputs, and taking over what the database found.
use crate::base::{BaseView, LoadedView};
use crate::disk::{noted_view, NotedChanges, NotedView};
use crate::disk_roots::{
    covers, finite_roots, in_roots, lemma_with_workspaces, with_workspaces, workspace_roots,
};
use crate::file_ids::SharedFileIds;
use crate::files::LoadedWorkspaceFiles;
use crate::inputs::{crate_views, root_views, CrateData, CrateView, RootChange, RootView, SourceRoot};
use crate::load::{load_sound, place_of, placed_one, PlacedWorkspace, PreparedLoadView, PreparedWorkspaceLoad};
use crate::ordered::listed;
use crate::recone::{all_classified, all_recones_fit, are_recones, reconed, recones_stopped, Classification, OutOfFileNumbers};
use crate::sync::SharedOverlaySync;
use crate::world::{SharedWorld, WorldView, ROOT_LIMIT};
use vstd::prelude::*;

verus! {

/// The source roots that a workspace's existing files fall into.
pub struct WorkspaceRoots {
    pub workspace: usize,
    pub roots: Vec<SourceRoot>,
}

#[verifier::ext_equal]
pub struct WorkspaceRootsView {
    pub workspace: usize,
    pub roots: Seq<RootView>,
}

impl View for WorkspaceRoots {
    type V = WorkspaceRootsView;

    open spec fn view(&self) -> WorkspaceRootsView {
        WorkspaceRootsView { workspace: self.workspace, roots: root_views(self.roots@) }
    }
}

pub open spec fn workspace_roots_views(list: Seq<WorkspaceRoots>) -> Seq<WorkspaceRootsView> {
    list.map_values(|n: WorkspaceRoots| n@)
}

/// The workspaces with the roots of the first `n` entries.
pub open spec fn rooted_to(ws: Seq<LoadedView>, list: Seq<WorkspaceRootsView>, n: int) -> Seq<LoadedView>
    decreases n,
{
    if n <= 0 {
        ws
    } else {
        let before = rooted_to(ws, list, n - 1);
        let at = list[n - 1].workspace as int;
        before.update(at, LoadedView { source_roots: list[n - 1].roots, ..before[at] })
    }
}

pub open spec fn rooted(ws: Seq<LoadedView>, list: Seq<WorkspaceRootsView>) -> Seq<LoadedView> {
    rooted_to(ws, list, list.len() as int)
}

/// The entries are for workspaces that are there, each holds the files that exist, and there is one
/// for each of the workspaces concerned.
pub open spec fn complete(ws: Seq<LoadedView>, affected: Seq<usize>, list: Seq<WorkspaceRootsView>) -> bool {
    &&& forall|e: int| 0 <= e < list.len() ==> (#[trigger] list[e]).workspace < ws.len()
    &&& forall|e: int| 0 <= e < list.len() ==> covers(ws[(#[trigger] list[e]).workspace as int].files, list[e].roots)
    &&& forall|j: int| 0 <= j < affected.len() ==> has_roots_entry(list, #[trigger] affected[j])
}

pub open spec fn has_roots_entry(list: Seq<WorkspaceRootsView>, workspace: usize) -> bool {
    exists|e: int| 0 <= e < list.len() && (#[trigger] list[e]).workspace == workspace
}

proof fn lemma_rooted_to(ws: Seq<LoadedView>, list: Seq<WorkspaceRootsView>, n: int)
    requires
        complete(ws, Seq::empty(), list),
        forall|e: int| 0 <= e < list.len() ==> finite_roots((#[trigger] list[e]).roots),
        0 <= n <= list.len(),
    ensures
        rooted_to(ws, list, n).len() == ws.len(),
        forall|i: int|
            0 <= i < ws.len() ==> {
                let lw = #[trigger] rooted_to(ws, list, n)[i];
                &&& lw == (LoadedView { source_roots: lw.source_roots, ..ws[i] })
                &&& lw.source_roots == ws[i].source_roots || (covers(ws[i].files, lw.source_roots) && finite_roots(lw.source_roots))
            },
        forall|e: int, f: u32|
            0 <= e < n && (#[trigger] ws[list[e].workspace as int].files.file_exists(f)) ==> in_roots(
                rooted_to(ws, list, n)[list[e].workspace as int].source_roots,
                f,
            ),
    decreases n,
{
    if n > 0 {
        lemma_rooted_to(ws, list, n - 1);
        let before = rooted_to(ws, list, n - 1);
        let r = rooted_to(ws, list, n);
        let at = list[n - 1].workspace as int;
        assert(covers(ws[at].files, list[n - 1].roots));
        assert forall|i: int| 0 <= i < ws.len() implies {
            let lw = #[trigger] r[i];
            &&& lw == (LoadedView { source_roots: lw.source_roots, ..ws[i] })
            &&& lw.source_roots == ws[i].source_roots || (covers(ws[i].files, lw.source_roots) && finite_roots(lw.source_roots))
        } by {
            assert(before[i] == (LoadedView { source_roots: before[i].source_roots, ..ws[i] }));
            if i == at {
                assert(finite_roots(list[n - 1].roots));
            }
        }
        assert forall|e: int, f: u32| 0 <= e < n && (#[trigger] ws[list[e].workspace as int].files.file_exists(f)) implies in_roots(
            r[list[e].workspace as int].source_roots,
            f,
        ) by {
            let i = list[e].workspace as int;
            if i == at {
                assert(in_roots(list[n - 1].roots, f));
            } else {
                assert(in_roots(before[i].source_roots, f));
            }
        }
    }
}

/// What the database is to be told of all workspaces: the source roots, and new texts. The crate
/// graph and the macros are put together from the workspaces' own.
#[derive(Debug)]
pub struct BaseInputs {
    pub roots: RootChange,
    pub texts: Vec<(u32, Option<String>)>,
}

/// The crates that are rooted in no overlay, among the first `n`.
pub open spec fn disk_crates_to(w: WorldView, crates: Seq<CrateView>, n: int) -> Seq<CrateView>
    decreases n,
{
    if n <= 0 {
        Seq::empty()
    } else {
        let before = disk_crates_to(w, crates, n - 1);
        if in_some_overlay(w, crates[n - 1].root_file) {
            before
        } else {
            before.push(crates[n - 1])
        }
    }
}

pub open spec fn in_some_overlay(w: WorldView, f: u32) -> bool {
    exists|s: u64| #[trigger] w.overlays.contains_key(s) && w.overlays[s].path_by_file.contains_key(f)
}

/// Some workspace has a file, which is in the given source root.
pub open spec fn root_in_use(base: BaseView, root: u32) -> bool {
    exists|i: int, f: u32|
        0 <= i < base.workspaces.len() && #[trigger] base.workspaces[i].files.contains_file(f) && base.inputs.file_roots[f] == root
}

/// The last source root that has files of workspaces; none without files.
pub open spec fn is_last_root(base: BaseView, last: Option<u32>) -> bool {
    match last {
        Some(max) => {
            &&& root_in_use(base, max)
            &&& forall|i: int, f: u32|
                0 <= i < base.workspaces.len() && #[trigger] base.workspaces[i].files.contains_file(f)
                    ==> base.inputs.file_roots[f] <= max
        },
        None => forall|i: int, f: u32|
            0 <= i < base.workspaces.len() ==> !#[trigger] base.workspaces[i].files.contains_file(f),
    }
}

pub open spec fn last_root(base: BaseView) -> Option<u32> {
    choose|last: Option<u32>| is_last_root(base, last)
}

proof fn lemma_last_root(base: BaseView, last: Option<u32>)
    requires
        is_last_root(base, last),
    ensures
        last == last_root(base),
{
    let other = last_root(base);
    assert(is_last_root(base, other));
    match (last, other) {
        (Some(a), Some(b)) => {
            let (i, f) = choose|i: int, f: u32|
                0 <= i < base.workspaces.len() && #[trigger] base.workspaces[i].files.contains_file(f) && base.inputs.file_roots[f] == a;
            let (j, g) = choose|j: int, g: u32|
                0 <= j < base.workspaces.len() && #[trigger] base.workspaces[j].files.contains_file(g) && base.inputs.file_roots[g] == b;
            assert(base.workspaces[i].files.contains_file(f) && base.workspaces[j].files.contains_file(g));
        },
        (Some(a), None) => {
            let (i, f) = choose|i: int, f: u32|
                0 <= i < base.workspaces.len() && #[trigger] base.workspaces[i].files.contains_file(f) && base.inputs.file_roots[f] == a;
            assert(base.workspaces[i].files.contains_file(f));
        },
        (None, Some(b)) => {
            let (i, f) = choose|i: int, f: u32|
                0 <= i < base.workspaces.len() && #[trigger] base.workspaces[i].files.contains_file(f) && base.inputs.file_roots[f] == b;
            assert(base.workspaces[i].files.contains_file(f));
        },
        (None, None) => {},
    }
}

/// The world with what the database found: the crates on disk, and the last source root with files.
pub open spec fn refreshed(w: WorldView, crates: Seq<CrateView>) -> WorldView {
    WorldView {
        base: BaseView { crates: disk_crates_to(w, crates, crates.len() as int), ..w.base },
        max_root: last_root(w.base),
        ..w
    }
}

/// The database has found crates whose root files it knows, and so the crates that depend on them.
pub open spec fn crates_known(base: BaseView, crates: Seq<CrateView>) -> bool {
    &&& forall|c: int| 0 <= c < crates.len() ==> base.inputs.file_roots.contains_key((#[trigger] crates[c]).root_file)
    &&& forall|c: int, r: int|
        0 <= c < crates.len() && 0 <= r < crates[c].transitive_rev_deps.len() ==> base.inputs.file_roots.contains_key(
            #[trigger] crates[c].transitive_rev_deps[r],
        )
}

/// Every file of a workspace, also one that does not exist, is in some source root.
pub open spec fn all_rooted(base: BaseView) -> bool {
    forall|i: int, f: u32|
        0 <= i < base.workspaces.len() && #[trigger] base.workspaces[i].files.contains_file(f) ==> base.inputs.file_roots.contains_key(f)
}

proof fn lemma_disk_crates(w: WorldView, crates: Seq<CrateView>, n: int)
    requires
        crates_known(w.base, crates),
        0 <= n <= crates.len(),
    ensures
        crates_known(w.base, disk_crates_to(w, crates, n)),
    decreases n,
{
    if n > 0 {
        lemma_disk_crates(w, crates, n - 1);
        let before = disk_crates_to(w, crates, n - 1);
        let r = disk_crates_to(w, crates, n);
        assert forall|c: int| 0 <= c < r.len() implies w.base.inputs.file_roots.contains_key((#[trigger] r[c]).root_file) by {
            if c < before.len() {
                assert(r[c] == before[c]);
            } else {
                assert(r[c] == crates[n - 1]);
            }
        }
        assert forall|c: int, d: int| 0 <= c < r.len() && 0 <= d < r[c].transitive_rev_deps.len() implies w.base.inputs.file_roots.contains_key(
            #[trigger] r[c].transitive_rev_deps[d],
        ) by {
            if c < before.len() {
                assert(r[c] == before[c]);
                assert(w.base.inputs.file_roots.contains_key(before[c].transitive_rev_deps[d]));
            } else {
                assert(r[c] == crates[n - 1]);
                assert(w.base.inputs.file_roots.contains_key(crates[n - 1].transitive_rev_deps[d]));
            }
        }
    }
}

pub proof fn lemma_refreshed(w: WorldView, crates: Seq<CrateView>, next: u32, last: Option<u32>)
    requires
        w.wf(next),
        crates_known(w.base, crates),
        all_rooted(w.base),
        w.base.inputs.roots.len() <= ROOT_LIMIT,
        is_last_root(w.base, last),
    ensures
        refreshed(w, crates).wf(next),
        refreshed(w, crates).max_root == last,
{
    let r = refreshed(w, crates);
    lemma_last_root(w.base, last);
    lemma_disk_crates(w, crates, crates.len() as int);
    match last {
        Some(max) => {
            let (i, f) = choose|i: int, f: u32|
                0 <= i < w.base.workspaces.len() && #[trigger] w.base.workspaces[i].files.contains_file(f) && w.base.inputs.file_roots[f]
                    == max;
            assert(w.base.workspaces[i].files.contains_file(f));
            assert(w.base.inputs.file_roots.contains_key(f));
        },
        None => {},
    }
    assert(r.base.readable()) by {
        assert(r.base.inputs == w.base.inputs && r.base.workspaces == w.base.workspaces);
        assert forall|f: u32| w.base.has_file(f) implies #[trigger] r.base.has_file(f) by {}
        assert forall|i: int, f: u32| 0 <= i < r.base.workspaces.len() && #[trigger] r.base.workspaces[i].files.file_exists(f) implies r.base.has_file(f) by {
            assert(w.base.has_file(f));
        }
        assert forall|i: int, q: int, f: u32|
            0 <= i < r.base.workspaces.len() && 0 <= q < r.base.workspaces[i].source_roots.len() && #[trigger] r.base.workspaces[i].source_roots[q].files.contains_key(
                f,
            ) implies r.base.has_file(f) by {
            assert(w.base.has_file(f));
        }
    }
}

/// The generations move on where the database has changed.
pub open spec fn counted(w: WorldView, database_changed: bool, workspaces_changed: bool) -> WorldView {
    if database_changed {
        WorldView {
            input_generation: w.input_generation.wrapping_add(1),
            workspace_generation: if workspaces_changed {
                w.workspace_generation.wrapping_add(1)
            } else {
                w.workspace_generation
            },
            ..w
        }
    } else {
        w
    }
}

impl SharedWorld {
    /// Puts the source roots of all workspaces and the noted texts into the inputs.
    pub fn apply_base_inputs(&mut self, noted: NotedChanges, list: Vec<WorkspaceRoots>, ids: &SharedFileIds) -> (r: BaseInputs)
        requires
            noted_view(*old(self), *ids, noted).wf(),
            complete(old(self)@.base.workspaces, noted.affected@, workspace_roots_views(list@)),
            workspace_roots(rooted(old(self)@.base.workspaces, workspace_roots_views(list@))).len() <= ROOT_LIMIT,
        ensures
            final(self)@ == with_workspaces(
                old(self)@,
                rooted(old(self)@.base.workspaces, workspace_roots_views(list@)),
                true,
                noted.texts.deep_view(),
            ),
            final(self)@.wf(ids.next),
            r.texts.deep_view() == noted.texts.deep_view(),
            r.roots.describes(old(self)@.base.inputs, workspace_roots(final(self)@.base.workspaces)),
    {
        let ghost w = self@;
        let ghost ws = self@.base.workspaces;
        let ghost views = workspace_roots_views(list@);
        let ghost total = list@.len() as int;
        let ghost s = noted_view(*self, *ids, noted);
        proof {
            assert forall|e: int| 0 <= e < views.len() implies finite_roots((#[trigger] views[e]).roots) by {
                assert forall|q: int| 0 <= q < views[e].roots.len() implies (#[trigger] views[e].roots[q]).files.dom().finite() by {
                    list@[e].roots@[q].files.lemma_domain_sorted();
                    assert(views[e].roots[q].files.dom() =~= list@[e].roots@[q].files@.dom());
                }
            }
            lemma_rooted_to(ws, views, total);
            let new_ws = rooted(ws, views);
            assert forall|i: int, f: u32|
                0 <= i < new_ws.len() && s.affected.contains(i as usize) && #[trigger] new_ws[i].files.file_exists(f) implies in_roots(
                new_ws[i].source_roots,
                f,
            ) by {
                let j = s.affected.index_of(i as usize);
                assert(has_roots_entry(views, s.affected[j]));
                let e = choose|e: int| 0 <= e < views.len() && (#[trigger] views[e]).workspace == s.affected[j];
                assert(new_ws[i] == (LoadedView { source_roots: new_ws[i].source_roots, ..ws[i] }));
                assert(ws[views[e].workspace as int].files.file_exists(f));
            }
            assert(crate::disk_roots::same_files(ws, s.affected, new_ws)) by {
                assert forall|i: int| 0 <= i < new_ws.len() implies (#[trigger] new_ws[i]).files == ws[i].files by {
                    assert(new_ws[i] == (LoadedView { source_roots: new_ws[i].source_roots, ..ws[i] }));
                }
            }
            lemma_with_workspaces(s, new_ws, true);
        }
        let ghost whole = list@;
        let mut list = list;
        let ghost mut i: int = 0;
        proof {
            assert(whole.skip(0) =~= whole);
        }
        while list.len() > 0
            invariant
                0 <= i <= total,
                total == whole.len(),
                list@ == whole.skip(i),
                views == workspace_roots_views(whole),
                forall|e: int| 0 <= e < views.len() ==> (#[trigger] views[e]).workspace < ws.len(),
                self.base.workspaces.len() == ws.len(),
                self@ == (WorldView { base: BaseView { workspaces: rooted_to(ws, views, i), ..w.base }, ..w }),
                rooted_to(ws, views, i).len() == ws.len(),
            decreases list.len(),
        {
            let entry = list.remove(0);
            let at: usize = entry.workspace;
            let ghost here = self@.base.workspaces;
            proof {
                assert(whole.skip(i)[0] == whole[i]);
                assert(views[i] == entry@);
                assert(whole.skip(i).remove(0) =~= whole.skip(i + 1));
                assert(here[at as int] == self.base.workspaces@[at as int]@);
            }
            self.base.workspaces[at].source_roots = entry.roots;
            proof {
                assert(self.base.workspaces@[at as int]@ =~= (LoadedView { source_roots: views[i].roots, ..here[at as int] }));
                assert(self@.base.workspaces =~= rooted_to(ws, views, i + 1));
                i = i + 1;
            }
        }
        let all = self.workspace_source_roots();
        let roots = self.base.inputs.apply_source_roots(all);
        self.base.inputs.set_texts(&noted.texts);
        proof {
            assert(self@ =~= with_workspaces(w, rooted(ws, views), true, noted.texts.deep_view()));
        }
        BaseInputs { roots, texts: noted.texts }
    }

    /// Whether a file is in the overlay of some session.
    fn in_some_overlay(&self, file: u32) -> (r: bool)
        ensures
            r == in_some_overlay(self@, file),
    {
        let n = self.overlays.len();
        let mut i: usize = 0;
        while i < n
            invariant
                i <= n,
                n == self.overlays.keys().len(),
                listed(self.overlays),
                forall|j: int| 0 <= j < i ==> !self@.overlays[#[trigger] self.overlays.keys()[j]].path_by_file.contains_key(file),
            decreases n - i,
        {
            let overlay = self.overlays.value_at(i);
            let ghost session = self.overlays.keys()[i as int];
            proof {
                assert(self.overlays@.contains_key(self.overlays.keys()[i as int]));
                assert(self@.overlays.contains_key(session) && self@.overlays[session] == overlay@);
            }
            if overlay.path_by_file.contains_key(&file) {
                return true;
            }
            i = i + 1;
        }
        proof {
            assert forall|s: u64| #[trigger] self@.overlays.contains_key(s) implies !self@.overlays[s].path_by_file.contains_key(file) by {
                assert(self.overlays@.contains_key(s));
                let j = self.overlays.keys().index_of(s);
                assert(self.overlays.keys()[j] == s);
            }
        }
        false
    }

    fn find_last_root(&self) -> (r: Option<u32>)
        requires
            all_rooted(self@.base),
        ensures
            is_last_root(self@.base, r),
    {
        let ghost base = self@.base;
        let mut r: Option<u32> = None;
        let mut i: usize = 0;
        while i < self.base.workspaces.len()
            invariant
                i <= self.base.workspaces.len(),
                base == self@.base,
                all_rooted(base),
                r matches Some(max) ==> root_in_use(base, max) && forall|v: int, f: u32|
                    0 <= v < i && #[trigger] base.workspaces[v].files.contains_file(f) ==> base.inputs.file_roots[f] <= max,
                r is None ==> forall|v: int, f: u32| 0 <= v < i ==> !#[trigger] base.workspaces[v].files.contains_file(f),
            decreases self.base.workspaces.len() - i,
        {
            let files: &LoadedWorkspaceFiles = &self.base.workspaces[i].files;
            let n = files.files_by_id.len();
            let ghost keys = files.files_by_id.keys();
            let ghost before = r;
            let mut k: usize = 0;
            proof {
                assert(base.workspaces[i as int] == self.base.workspaces@[i as int]@);
            }
            while k < n
                invariant
                    k <= n,
                    n == keys.len(),
                    keys == files.files_by_id.keys(),
                    listed(files.files_by_id),
                    base == self@.base,
                    all_rooted(base),
                    i < self.base.workspaces.len(),
                    base.workspaces[i as int].files == files@,
                    r matches Some(max) ==> root_in_use(base, max) && (before matches Some(b) ==> b <= max) && forall|j: int|
                        0 <= j < k ==> base.inputs.file_roots[#[trigger] keys[j]] <= max,
                    r is None ==> before is None && k == 0,
                decreases n - k,
            {
                let file: u32 = *files.files_by_id.key_at(k);
                proof {
                    assert(files.files_by_id@.contains_key(keys[k as int]));
                    assert(base.workspaces[i as int].files.contains_file(file));
                }
                let root = self.base.source_root_for_file(file);
                let max: u32 = match r {
                    Some(max) => if max < root {
                        root
                    } else {
                        max
                    },
                    None => root,
                };
                proof {
                    if max == root {
                        assert(base.workspaces[i as int].files.contains_file(file) && base.inputs.file_roots[file] == max);
                        assert(root_in_use(base, max));
                    }
                }
                r = Some(max);
                k = k + 1;
            }
            proof {
                assert forall|f: u32| #[trigger] base.workspaces[i as int].files.contains_file(f) implies keys.contains(f) by {
                    assert(files.files_by_id@.contains_key(f));
                }
                match r {
                    Some(max) => {
                        assert forall|v: int, f: u32| 0 <= v < i + 1 && #[trigger] base.workspaces[v].files.contains_file(f) implies base.inputs.file_roots[f]
                            <= max by {
                            if v == i {
                                let j = keys.index_of(f);
                                assert(keys[j] == f);
                            }
                        }
                    },
                    None => {
                        assert forall|v: int, f: u32| 0 <= v < i + 1 implies !#[trigger] base.workspaces[v].files.contains_file(f) by {
                            if v == i && base.workspaces[v].files.contains_file(f) {
                                assert(keys.contains(f));
                            }
                        }
                    },
                }
            }
            i = i + 1;
        }
        r
    }

    /// Takes over what the database found: the crates that are rooted in no overlay, and the last
    /// source root with files on disk.
    pub fn refresh_base_inputs(&mut self, crates: Vec<CrateData>, ids: &SharedFileIds)
        requires
            old(self)@.wf(ids.next),
            crates_known(old(self)@.base, crate_views(crates@)),
            all_rooted(old(self)@.base),
            old(self)@.base.inputs.roots.len() <= ROOT_LIMIT,
        ensures
            final(self)@ == refreshed(old(self)@, crate_views(crates@)),
            final(self)@.wf(ids.next),
    {
        let ghost w = self@;
        let ghost views = crate_views(crates@);
        let last = self.find_last_root();
        proof {
            lemma_refreshed(w, views, ids.next, last);
        }
        let ghost whole = crates@;
        let mut crates = crates;
        let mut kept: Vec<CrateData> = Vec::new();
        let ghost mut i: int = 0;
        proof {
            assert(whole.skip(0) =~= whole);
            assert(crate_views(kept@) =~= Seq::empty());
        }
        while crates.len() > 0
            invariant
                0 <= i <= whole.len(),
                crates@ == whole.skip(i),
                views == crate_views(whole),
                self@ == w,
                crate_views(kept@) == disk_crates_to(w, views, i),
            decreases crates.len(),
        {
            let krate = crates.remove(0);
            let ghost view = krate@;
            let ghost before = crate_views(kept@);
            proof {
                assert(whole.skip(i)[0] == whole[i]);
                assert(views[i] == view);
                assert(whole.skip(i).remove(0) =~= whole.skip(i + 1));
            }
            if !self.in_some_overlay(krate.root_file) {
                kept.push(krate);
                proof {
                    assert(crate_views(kept@) =~= before.push(view));
                }
            }
            proof {
                i = i + 1;
            }
        }
        self.base.base_crates = kept;
        self.base_max_source_root = last;
        proof {
            assert(i == whole.len());
            assert(self@ =~= refreshed(w, views));
        }
    }

    fn count_change(&mut self, database_changed: bool, workspaces_changed: bool)
        ensures
            final(self)@ == counted(old(self)@, database_changed, workspaces_changed),
            forall|next: u32| old(self)@.wf(next) ==> #[trigger] final(self)@.wf(next),
    {
        if database_changed {
            self.input_generation = self.input_generation.wrapping_add(1);
            if workspaces_changed {
                self.workspace_generation = self.workspace_generation.wrapping_add(1);
            }
        }
        proof {
            assert(self@ =~= counted(old(self)@, database_changed, workspaces_changed));
            assert forall|next: u32| old(self)@.wf(next) implies #[trigger] self@.wf(next) by {}
        }
    }

    /// Ends the loading of one workspace. The overlays stay as they are.
    pub fn finish_workspace_commit(&mut self, crates: Vec<CrateData>, database_changed: bool, ids: &SharedFileIds)
        requires
            old(self)@.wf(ids.next),
            crates_known(old(self)@.base, crate_views(crates@)),
            all_rooted(old(self)@.base),
            old(self)@.base.inputs.roots.len() <= ROOT_LIMIT,
        ensures
            final(self)@ == counted(refreshed(old(self)@, crate_views(crates@)), database_changed, true),
            final(self)@.wf(ids.next),
    {
        self.refresh_base_inputs(crates, ids);
        self.count_change(database_changed, true);
    }

    /// Ends the loading of several workspaces, or of build data or macros for some. All overlays are
    /// made anew.
    pub fn finish_inputs(
        &mut self,
        crates: Vec<CrateData>,
        database_changed: bool,
        workspaces_changed: bool,
        classes: &Classification,
        ids: &mut SharedFileIds,
    ) -> (r: Result<Vec<SharedOverlaySync>, OutOfFileNumbers>)
        requires
            old(self)@.wf(old(ids).next),
            crates_known(old(self)@.base, crate_views(crates@)),
            all_rooted(old(self)@.base),
            old(self)@.base.inputs.roots.len() <= ROOT_LIMIT,
            all_classified(old(self)@, classes@),
        ensures
            r is Ok <==> all_recones_fit(refreshed(old(self)@, crate_views(crates@)), old(ids).next, classes@),
            r is Ok ==> {
                let done = reconed(refreshed(old(self)@, crate_views(crates@)), old(ids).next, classes@);
                final(self)@ == counted(done.0, database_changed, workspaces_changed) && final(ids).next == done.1
            },
            r matches Ok(list) ==> are_recones(list@, refreshed(old(self)@, crate_views(crates@)), old(ids).next, classes@),
            r is Err ==> recones_stopped(
                refreshed(old(self)@, crate_views(crates@)),
                old(ids).next,
                classes@,
                (final(self)@, final(ids).next),
            ),
            final(self)@.wf(final(ids).next),
    {
        self.refresh_base_inputs(crates, ids);
        let r = self.recone_session_overlays(classes, ids);
        match r {
            Ok(list) => {
                self.count_change(database_changed, workspaces_changed);
                Ok(list)
            },
            Err(error) => Err(error),
        }
    }
}

/// What is known before any workspace is placed.
pub open spec fn nothing_noted(w: WorldView, next: u32) -> NotedView {
    NotedView { world: w, next, texts: Seq::empty(), endings_changed: false, affected: Seq::empty() }
}

/// What is known once the first `n` loaded workspaces are in the world.
pub open spec fn placed_to(w: WorldView, next: u32, loads: Seq<PreparedLoadView>, n: int) -> NotedView
    decreases n,
{
    if n <= 0 {
        nothing_noted(w, next)
    } else {
        placed_one(placed_to(w, next, loads, n - 1), loads[n - 1])
    }
}

pub open spec fn load_views(loads: Seq<PreparedWorkspaceLoad>) -> Seq<PreparedLoadView> {
    loads.map_values(|l: PreparedWorkspaceLoad| l@)
}

/// A placed workspace is the one that was loaded.
pub open spec fn is_placed(p: PlacedWorkspace, before: NotedView, load: PreparedLoadView) -> bool {
    &&& p.index == place_of(before.world, load)
    &&& p.reloaded == before.world.workspace_indexes.contains_key(load.load_key)
    &&& root_views(p.roots@) == load.workspace.source_roots
}

/// What comes of loading one workspace: it was there already, or it was put in, and the database is
/// to be told.
pub enum CommitStep {
    Known(usize),
    Placed(usize, BaseInputs),
}

/// A world in which nothing has been noted yet can take in changes.
pub proof fn lemma_nothing_noted(w: WorldView, next: u32)
    requires
        w.wf(next),
        w.base.workspaces.len() <= usize::MAX,
    ensures
        nothing_noted(w, next).wf(),
{
    let s = nothing_noted(w, next);
    assert forall|k: int, f: u32| 0 <= k < w.base.workspaces.len() && #[trigger] w.base.workspaces[k].files.file_exists(f) implies w.base.has_file(f) by {}
    assert(s.wf());
}

proof fn lemma_placed_one_shape(s: NotedView, load: PreparedLoadView)
    requires
        s.wf(),
    ensures
        placed_one(s, load).world.file_ids == s.world.file_ids,
        placed_one(s, load).world.base.workspaces.len() <= s.world.base.workspaces.len() + 1,
{
}

impl SharedWorld {
    /// Puts loaded workspaces into the world, one after another, without source roots.
    pub fn place_workspaces(&mut self, loads: Vec<PreparedWorkspaceLoad>, ids: &SharedFileIds) -> (r: (
        Vec<PlacedWorkspace>,
        NotedChanges,
    ))
        requires
            old(self)@.wf(ids.next),
            old(self)@.base.workspaces.len() + loads@.len() <= usize::MAX,
            forall|i: int| 0 <= i < loads@.len() ==> load_sound(old(self)@.file_ids, (#[trigger] loads@[i])@),
        ensures
            noted_view(*final(self), *ids, r.1) == placed_to(old(self)@, ids.next, load_views(loads@), loads@.len() as int),
            noted_view(*final(self), *ids, r.1).wf(),
            r.0@.len() == loads@.len(),
            forall|i: int|
                0 <= i < r.0@.len() ==> is_placed(
                    #[trigger] r.0@[i],
                    placed_to(old(self)@, ids.next, load_views(loads@), i),
                    loads@[i]@,
                ),
    {
        let ghost w = self@;
        let ghost views = load_views(loads@);
        let ghost whole = loads@;
        let mut loads = loads;
        let mut placed: Vec<PlacedWorkspace> = Vec::new();
        let mut noted = NotedChanges { texts: Vec::new(), endings_changed: false, affected: Vec::new() };
        let ghost mut i: int = 0;
        proof {
            assert(whole.skip(0) =~= whole);
            assert(noted.texts.deep_view() =~= Seq::empty());
            assert(noted_view(*self, *ids, noted) =~= nothing_noted(w, ids.next));
            lemma_nothing_noted(w, ids.next);
        }
        while loads.len() > 0
            invariant
                0 <= i <= whole.len(),
                loads@ == whole.skip(i),
                views == load_views(whole),
                w.base.workspaces.len() + whole.len() <= usize::MAX,
                forall|j: int| 0 <= j < whole.len() ==> load_sound(w.file_ids, (#[trigger] whole[j])@),
                noted_view(*self, *ids, noted) == placed_to(w, ids.next, views, i),
                noted_view(*self, *ids, noted).wf(),
                self@.file_ids == w.file_ids,
                self@.base.workspaces.len() <= w.base.workspaces.len() + i,
                placed@.len() == i,
                forall|j: int| 0 <= j < i ==> is_placed(#[trigger] placed@[j], placed_to(w, ids.next, views, j), whole[j]@),
            decreases loads.len(),
        {
            let load = loads.remove(0);
            proof {
                assert(whole.skip(i)[0] == whole[i]);
                assert(views[i] == load@);
                assert(whole.skip(i).remove(0) =~= whole.skip(i + 1));
                lemma_placed_one_shape(placed_to(w, ids.next, views, i), views[i]);
            }
            let p = self.place_workspace(&mut noted, load, ids);
            placed.push(p);
            proof {
                i = i + 1;
            }
        }
        (placed, noted)
    }

    /// Puts one loaded workspace into the world with the source roots that the loader found. A
    /// workspace that is there already stays as it is.
    pub fn commit_workspace(&mut self, load: PreparedWorkspaceLoad, ids: &SharedFileIds) -> (r: CommitStep)
        requires
            old(self)@.wf(ids.next),
            old(self)@.base.workspaces.len() < usize::MAX,
            load_sound(old(self)@.file_ids, load@),
            covers(load@.workspace.files, load@.workspace.source_roots),
            workspace_roots(old(self)@.base.workspaces.push(load@.workspace)).len() <= ROOT_LIMIT,
        ensures
            old(self)@.workspace_indexes.contains_key(load.load_key@) ==> r == CommitStep::Known(
                old(self)@.workspace_indexes[load.load_key@],
            ) && final(self)@ == old(self)@,
            !old(self)@.workspace_indexes.contains_key(load.load_key@) ==> {
                &&& r matches CommitStep::Placed(index, inputs)
                &&& index == old(self)@.base.workspaces.len()
                &&& final(self)@ == committed(old(self)@, load@)
                &&& inputs.texts.deep_view() == load@.texts
                &&& inputs.roots.describes(old(self)@.base.inputs, workspace_roots(final(self)@.base.workspaces))
            },
            final(self)@.wf(ids.next),
    {
        let ghost w = self@;
        let ghost view = load@;
        match self.workspace_index(&load.load_key) {
            Some(index) => {
                return CommitStep::Known(index);
            },
            None => {},
        }
        let mut noted = NotedChanges { texts: Vec::new(), endings_changed: false, affected: Vec::new() };
        proof {
            assert(noted.texts.deep_view() =~= Seq::empty());
            assert(noted_view(*self, *ids, noted) =~= nothing_noted(w, ids.next));
            lemma_nothing_noted(w, ids.next);
        }
        let placed = self.place_workspace(&mut noted, load, ids);
        let ghost staged = self@;
        let index: usize = placed.index;
        let ghost own = root_views(placed.roots@);
        let mut list: Vec<WorkspaceRoots> = Vec::new();
        list.push(WorkspaceRoots { workspace: index, roots: placed.roots });
        proof {
            let views = workspace_roots_views(list@);
            let ws = staged.base.workspaces;
            assert(views.len() == 1 && views[0].workspace == index && views[0].roots == own);
            assert(noted.affected@ =~= seq![index]);
            assert(noted.texts.deep_view() =~= view.texts);
            assert(has_roots_entry(views, noted.affected@[0])) by {
                assert(views[0].workspace == noted.affected@[0]);
            }
            assert(complete(ws, noted.affected@, views));
            assert(rooted_to(ws, views, 0) == ws);
            assert(rooted(ws, views) =~= w.base.workspaces.push(view.workspace));
        }
        let inputs = self.apply_base_inputs(noted, list, ids);
        proof {
            assert(self@ =~= committed(w, view));
        }
        CommitStep::Placed(index, inputs)
    }
}

/// The world with one loaded workspace more.
pub open spec fn committed(w: WorldView, load: PreparedLoadView) -> WorldView {
    with_workspaces(
        WorldView {
            workspace_indexes: w.workspace_indexes.insert(load.load_key, w.base.workspaces.len() as usize),
            ..w
        },
        w.base.workspaces.push(load.workspace),
        true,
        load.texts,
    )
}

/// Nothing is counted as a change unless the database has changed.
pub proof fn law_generations_follow_the_database(w: WorldView, database_changed: bool, workspaces_changed: bool)
    ensures
        counted(w, database_changed, workspaces_changed).input_generation != w.input_generation <==> database_changed,
        counted(w, database_changed, workspaces_changed).workspace_generation != w.workspace_generation <==> database_changed
            && workspaces_changed,
{
}

/// A workspace gets the source roots of the last entry for it, and keeps its own without one. Nothing
/// else of it changes.
pub proof fn law_last_entry_gives_the_roots(ws: Seq<LoadedView>, list: Seq<WorkspaceRootsView>, n: int, i: int)
    requires
        0 <= n <= list.len(),
        forall|e: int| 0 <= e < list.len() ==> (#[trigger] list[e]).workspace < ws.len(),
        0 <= i < ws.len(),
    ensures
        ({
            let now = rooted_to(ws, list, n)[i];
            &&& rooted_to(ws, list, n).len() == ws.len()
            &&& (forall|e: int| 0 <= e < n ==> (#[trigger] list[e]).workspace != i) ==> now == ws[i]
            &&& forall|e: int|
                0 <= e < n && (#[trigger] list[e]).workspace == i && (forall|d: int| e < d < n ==> (#[trigger] list[d]).workspace != i)
                    ==> now.source_roots == list[e].roots
            &&& now == (LoadedView { source_roots: now.source_roots, ..ws[i] })
        }),
    decreases n,
{
    if n > 0 {
        assert(list[n - 1].workspace < ws.len());
        law_last_entry_gives_the_roots(ws, list, n - 1, i);
        law_last_entry_gives_the_roots(ws, list, n - 1, list[n - 1].workspace as int);
    }
}

/// The crates on disk are those that the database found and whose root file is in no session's
/// overlay, in the order in which they were found.
pub proof fn law_crates_on_disk_are_in_no_overlay(w: WorldView, crates: Seq<CrateView>)
    ensures
        refreshed(w, crates).base.crates == crates.filter(
            |c: CrateView| forall|s: u64| #[trigger] w.overlays.contains_key(s) ==> !w.overlays[s].path_by_file.contains_key(c.root_file),
        ),
        refreshed(w, crates).overlays == w.overlays,
        refreshed(w, crates).base == (BaseView { crates: refreshed(w, crates).base.crates, ..w.base }),
{
    lemma_disk_crates_filtered(w, crates, crates.len() as int);
    assert(crates.take(crates.len() as int) =~= crates);
}

proof fn lemma_disk_crates_filtered(w: WorldView, crates: Seq<CrateView>, n: int)
    requires
        0 <= n <= crates.len(),
    ensures
        disk_crates_to(w, crates, n) == crates.take(n).filter(
            |c: CrateView| forall|s: u64| #[trigger] w.overlays.contains_key(s) ==> !w.overlays[s].path_by_file.contains_key(c.root_file),
        ),
    decreases n,
{
    let keep = |c: CrateView| forall|s: u64| #[trigger]
        w.overlays.contains_key(s) ==> !w.overlays[s].path_by_file.contains_key(c.root_file);
    reveal(Seq::filter);
    if n > 0 {
        lemma_disk_crates_filtered(w, crates, n - 1);
        assert(crates.take(n).drop_last() =~= crates.take(n - 1));
        assert(crates.take(n).last() == crates[n - 1]);
        assert(keep(crates[n - 1]) <==> !in_some_overlay(w, crates[n - 1].root_file));
    }
}

/// The last source root on disk is the largest one that a file of a workspace is in.
pub proof fn law_last_root_is_the_largest(w: WorldView, crates: Seq<CrateView>, i: int, f: u32)
    requires
        0 <= i < w.base.workspaces.len(),
        w.base.workspaces[i].files.by_id.contains_key(f),
        forall|j: int, g: u32|
            0 <= j < w.base.workspaces.len() && #[trigger] w.base.workspaces[j].files.by_id.contains_key(g)
                ==> w.base.inputs.file_roots[g] <= w.base.inputs.file_roots[f],
    ensures
        refreshed(w, crates).max_root == Some(w.base.inputs.file_roots[f]),
{
    let max = w.base.inputs.file_roots[f];
    assert(w.base.workspaces[i].files.contains_file(f));
    assert(root_in_use(w.base, max));
    assert forall|j: int, g: u32|
        0 <= j < w.base.workspaces.len() && #[trigger] w.base.workspaces[j].files.contains_file(g) implies w.base.inputs.file_roots[g]
        <= max by {
        assert(w.base.workspaces[j].files.by_id.contains_key(g));
    }
    lemma_last_root(w.base, Some(max));
}

/// Without files there is no last source root.
pub proof fn law_no_files_no_root(w: WorldView, crates: Seq<CrateView>)
    requires
        forall|j: int, g: u32|
            0 <= j < w.base.workspaces.len() ==> !#[trigger] w.base.workspaces[j].files.by_id.contains_key(g),
    ensures
        refreshed(w, crates).max_root is None,
{
    assert forall|j: int, g: u32| 0 <= j < w.base.workspaces.len() implies !#[trigger] w.base.workspaces[j].files.contains_file(g) by {
        assert(!w.base.workspaces[j].files.by_id.contains_key(g));
    }
    lemma_last_root(w.base, None);
}

/// A change of the database is the next one. It counts as one of the workspaces only where they
/// changed with it.
pub proof fn law_changes_are_counted(w: WorldView, database_changed: bool, workspaces_changed: bool)
    requires
        w.input_generation < u64::MAX,
        w.workspace_generation < u64::MAX,
    ensures
        ({
            let r = counted(w, database_changed, workspaces_changed);
            &&& r.input_generation == w.input_generation + (if database_changed { 1int } else { 0 })
            &&& r.workspace_generation == w.workspace_generation + (if database_changed && workspaces_changed { 1int } else { 0 })
            &&& r == (WorldView { input_generation: r.input_generation, workspace_generation: r.workspace_generation, ..w })
        }),
{
}

/// A workspace that is loaded comes last, as it was loaded, and is found under its key. The others
/// stay where and as they are, and so do the overlays.
pub proof fn law_committed_workspace_comes_last(w: WorldView, load: PreparedLoadView, i: int, key: Seq<char>)
    requires
        w.base.workspaces.len() < usize::MAX,
        0 <= i < w.base.workspaces.len(),
        key != load.load_key,
    ensures
        ({
            let r = committed(w, load);
            &&& r.base.workspaces.len() == w.base.workspaces.len() + 1
            &&& r.base.workspaces[i] == w.base.workspaces[i]
            &&& r.base.workspaces[w.base.workspaces.len() as int] == load.workspace
            &&& r.workspace_indexes.contains_key(load.load_key) && r.workspace_indexes[load.load_key] == w.base.workspaces.len()
            &&& r.workspace_indexes.contains_key(key) == w.workspace_indexes.contains_key(key)
            &&& w.workspace_indexes.contains_key(key) ==> r.workspace_indexes[key] == w.workspace_indexes[key]
            &&& r.overlays == w.overlays && r.base.crates == w.base.crates && r.file_ids == w.file_ids && r.max_root == w.max_root
        }),
{
}

} // verus!
