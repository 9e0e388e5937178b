//! What a session finds in its world.
use crate::base::{base_file, base_file_exists, base_line_endings, in_view, LoadedView};
use crate::files::{
    base_endings, base_file_of, base_path_of, some_has, some_holds, LoadedWorkspaceFiles, SharedFileMappings,
    SharedLineEndings,
};
use crate::fx::{fx_insert, fx_set};
use crate::ordered::{listed, OrderedMap};
use crate::overlay::OverlayView;
use crate::paths::{starts_with, LineEndings, PathView};
use crate::privacy::seen_file;
use crate::shared::share;
use crate::sync::{overlay_of, overlay_or_empty};
use crate::world::{SharedWorld, WorldView};
use rustc_hash::FxHashSet;
use std::sync::Arc;
use vstd::prelude::*;

verus! {

/// The path of a file in the first of the workspaces that has the file.
pub open spec fn base_path(ws: Seq<LoadedView>, indexes: Seq<usize>, f: u32) -> Option<PathView>
    decreases indexes.len(),
{
    if indexes.len() == 0 {
        None
    } else if indexes[0] < ws.len() && ws[indexes[0] as int].files.path(f) is Some {
        ws[indexes[0] as int].files.path(f)
    } else {
        base_path(ws, indexes.drop_first(), f)
    }
}

/// The workspaces at the given places, as far as there are any.
spec fn viewed(ws: Seq<LoadedView>, indexes: Seq<usize>) -> Seq<LoadedView>
    decreases indexes.len(),
{
    if indexes.len() == 0 {
        Seq::empty()
    } else if indexes.last() < ws.len() {
        viewed(ws, indexes.drop_last()).push(ws[indexes.last() as int])
    } else {
        viewed(ws, indexes.drop_last())
    }
}

proof fn lemma_viewed_front(ws: Seq<LoadedView>, indexes: Seq<usize>)
    requires
        indexes.len() > 0,
    ensures
        viewed(ws, indexes) == (if indexes[0] < ws.len() {
            seq![ws[indexes[0] as int]]
        } else {
            Seq::empty()
        }) + viewed(ws, indexes.drop_first()),
    decreases indexes.len(),
{
    if indexes.len() > 1 {
        lemma_viewed_front(ws, indexes.drop_last());
        assert(indexes.drop_last().drop_first() =~= indexes.drop_first().drop_last());
        let front = if indexes[0] < ws.len() {
            seq![ws[indexes[0] as int]]
        } else {
            Seq::empty()
        };
        assert(viewed(ws, indexes) =~= front + viewed(ws, indexes.drop_first()));
    } else {
        assert(indexes.drop_last() =~= Seq::empty());
        assert(indexes.drop_first() =~= Seq::empty());
        assert(viewed(ws, indexes) =~= (if indexes[0] < ws.len() {
            seq![ws[indexes[0] as int]]
        } else {
            Seq::empty()
        }) + viewed(ws, indexes.drop_first()));
    }
}

proof fn lemma_viewed_member(ws: Seq<LoadedView>, indexes: Seq<usize>, p: spec_fn(LoadedView) -> bool)
    ensures
        (exists|i: int| 0 <= i < viewed(ws, indexes).len() && p(#[trigger] viewed(ws, indexes)[i])) == (exists|i: int|
            0 <= i < indexes.len() && (#[trigger] indexes[i]) < ws.len() && p(ws[indexes[i] as int])),
    decreases indexes.len(),
{
    if indexes.len() > 0 {
        let rest = indexes.drop_last();
        lemma_viewed_member(ws, rest, p);
        let v = viewed(ws, indexes);
        let u = viewed(ws, rest);
        if exists|i: int| 0 <= i < v.len() && p(#[trigger] v[i]) {
            let i = choose|i: int| 0 <= i < v.len() && p(#[trigger] v[i]);
            if i < u.len() {
                assert(p(u[i]));
                let j = choose|j: int| 0 <= j < rest.len() && (#[trigger] rest[j]) < ws.len() && p(ws[rest[j] as int]);
                assert(indexes[j] < ws.len() && p(ws[indexes[j] as int]));
            } else {
                assert(indexes[indexes.len() - 1] < ws.len());
            }
        }
        if exists|i: int| 0 <= i < indexes.len() && (#[trigger] indexes[i]) < ws.len() && p(ws[indexes[i] as int]) {
            let i = choose|i: int| 0 <= i < indexes.len() && (#[trigger] indexes[i]) < ws.len() && p(ws[indexes[i] as int]);
            if i < rest.len() {
                assert(rest[i] < ws.len() && p(ws[rest[i] as int]));
                let j = choose|j: int| 0 <= j < u.len() && p(#[trigger] u[j]);
                assert(p(v[j]));
            } else {
                assert(p(v[u.len() as int]));
            }
        }
    }
}

/// The tables of files, one for each workspace.
spec fn is_files_of(files: Seq<Arc<LoadedWorkspaceFiles>>, ws: Seq<LoadedView>) -> bool {
    files.len() == ws.len() && forall|i: int| 0 <= i < ws.len() ==> (#[trigger] files[i])@ == ws[i].files
}

proof fn lemma_files_lookups(files: Seq<Arc<LoadedWorkspaceFiles>>, ws: Seq<LoadedView>, indexes: Seq<usize>, key: Seq<char>, f: u32)
    requires
        is_files_of(files, viewed(ws, indexes)),
    ensures
        base_file_of(files, key) == base_file(ws, indexes, key),
        base_path_of(files, f) == base_path(ws, indexes, f),
    decreases indexes.len(),
{
    if indexes.len() > 0 {
        lemma_viewed_front(ws, indexes);
        let rest = viewed(ws, indexes.drop_first());
        let all = viewed(ws, indexes);
        if indexes[0] < ws.len() {
            assert(all[0] == ws[indexes[0] as int]);
            assert(files[0]@ == ws[indexes[0] as int].files);
            assert forall|i: int| 0 <= i < rest.len() implies (#[trigger] files.drop_first()[i])@ == rest[i].files by {
                assert(files[i + 1]@ == all[i + 1].files);
            }
            lemma_files_lookups(files.drop_first(), ws, indexes.drop_first(), key, f);
        } else {
            assert(all =~= rest);
            lemma_files_lookups(files, ws, indexes.drop_first(), key, f);
        }
    } else {
        assert(viewed(ws, indexes) =~= Seq::empty());
    }
}

spec fn is_endings_of(
    list: Seq<(Arc<LoadedWorkspaceFiles>, Arc<OrderedMap<u32, LineEndings>>)>,
    ws: Seq<LoadedView>,
) -> bool {
    list.len() == ws.len() && forall|i: int|
        0 <= i < ws.len() ==> (#[trigger] list[i]).0@ == ws[i].files && list[i].1@ == ws[i].line_endings
}

proof fn lemma_endings_lookup(
    list: Seq<(Arc<LoadedWorkspaceFiles>, Arc<OrderedMap<u32, LineEndings>>)>,
    ws: Seq<LoadedView>,
    indexes: Seq<usize>,
    f: u32,
)
    requires
        is_endings_of(list, viewed(ws, indexes)),
    ensures
        base_endings(list, f) == base_line_endings(ws, indexes, f),
    decreases indexes.len(),
{
    if indexes.len() > 0 {
        lemma_viewed_front(ws, indexes);
        let rest = viewed(ws, indexes.drop_first());
        let all = viewed(ws, indexes);
        if indexes[0] < ws.len() {
            assert(all[0] == ws[indexes[0] as int]);
            assert(list[0].0@ == ws[indexes[0] as int].files);
            assert forall|i: int| 0 <= i < rest.len() implies (#[trigger] list.drop_first()[i]).0@ == rest[i].files
                && list.drop_first()[i].1@ == rest[i].line_endings by {
                assert(list[i + 1].0@ == all[i + 1].files);
            }
            lemma_endings_lookup(list.drop_first(), ws, indexes.drop_first(), f);
        } else {
            assert(all =~= rest);
            lemma_endings_lookup(list, ws, indexes.drop_first(), f);
        }
    } else {
        assert(viewed(ws, indexes) =~= Seq::empty());
    }
}

/// The path of a file begins with one of the excluded paths.
pub open spec fn path_excluded(key: Seq<char>, excluded: Seq<Seq<char>>) -> bool {
    exists|i: int| 0 <= i < excluded.len() && (#[trigger] excluded[i]).is_prefix_of(key)
}

/// The path of a file in the first workspace of the world that has the file.
pub open spec fn world_path(ws: Seq<LoadedView>, f: u32) -> Option<PathView>
    decreases ws.len(),
{
    if ws.len() == 0 {
        None
    } else if ws[0].files.path(f) is Some {
        ws[0].files.path(f)
    } else {
        world_path(ws.drop_first(), f)
    }
}

pub open spec fn file_excluded(ws: Seq<LoadedView>, f: u32, excluded: Seq<Seq<char>>) -> bool {
    world_path(ws, f) matches Some(path) && path_excluded(path.key, excluded)
}

/// The root files of the crates that a session sees: those on disk that are in view, not overlaid
/// by the session and not excluded, and those in the session's overlay.
pub open spec fn visible_roots(w: WorldView, session: u64, indexes: Seq<usize>, excluded: Seq<Seq<char>>) -> Set<u32> {
    Set::new(|f: u32| visible_on_disk(w, session, indexes, excluded, f) || overlay_or_empty(w, session).crates.contains_value(f))
}

pub open spec fn visible_on_disk(w: WorldView, session: u64, indexes: Seq<usize>, excluded: Seq<Seq<char>>, f: u32) -> bool {
    exists|c: int|
        0 <= c < w.base.crates.len() && is_visible_crate(w, session, indexes, excluded, c) && (#[trigger] w.base.crates[c]).root_file == f
}

pub open spec fn is_visible_crate(w: WorldView, session: u64, indexes: Seq<usize>, excluded: Seq<Seq<char>>, c: int) -> bool {
    let krate = w.base.crates[c];
    &&& in_view(w.base.workspaces, indexes, krate.root_file)
    &&& !overlay_or_empty(w, session).crates.contains_key(krate.id)
    &&& !file_excluded(w.base.workspaces, krate.root_file, excluded)
}

fn matches_excluded(key: &String, excluded: &Vec<String>) -> (r: bool)
    ensures
        r == path_excluded(key@, excluded.deep_view()),
{
    let ghost all = excluded.deep_view();
    let mut i: usize = 0;
    proof {
        assert(all.len() == excluded@.len());
    }
    while i < excluded.len()
        invariant
            i <= excluded.len(),
            all == excluded.deep_view(),
            all.len() == excluded@.len(),
            forall|j: int| 0 <= j < i ==> !(#[trigger] all[j]).is_prefix_of(key@),
        decreases excluded.len() - i,
    {
        proof {
            assert(all[i as int] == excluded@[i as int]@);
        }
        if starts_with(key.as_str(), excluded[i].as_str()) {
            return true;
        }
        i = i + 1;
    }
    false
}

impl SharedWorld {
    /// The line endings of the files that a session sees.
    pub fn session_line_endings(&self, session_id: u64, workspaces: &Vec<usize>) -> (r: SharedLineEndings)
        requires
            self@.overlays.contains_key(session_id) ==> self@.overlays[session_id].wf(),
        ensures
            forall|f: u32|
                #[trigger] base_endings(r.workspaces@, f) == base_line_endings(self@.base.workspaces, workspaces@, f),
            r.overlay@.dom() == overlay_or_empty(self@, session_id).path_by_file.dom(),
            forall|f: u32|
                #[trigger] r.overlay@.contains_key(f) ==> r.overlay@[f] == overlay_or_empty(self@, session_id).files[overlay_or_empty(
                    self@,
                    session_id,
                ).path_by_file[f]].line_endings,
    {
        let ghost ws = self@.base.workspaces;
        let mut list: Vec<(Arc<LoadedWorkspaceFiles>, Arc<OrderedMap<u32, LineEndings>>)> = Vec::new();
        let mut i: usize = 0;
        proof {
            assert(workspaces@.take(0) =~= Seq::empty());
            assert(viewed(ws, workspaces@.take(0)) =~= Seq::empty());
        }
        while i < workspaces.len()
            invariant
                i <= workspaces.len(),
                ws == self@.base.workspaces,
                is_endings_of(list@, viewed(ws, workspaces@.take(i as int))),
            decreases workspaces.len() - i,
        {
            let index: usize = workspaces[i];
            proof {
                assert(workspaces@.take(i + 1).drop_last() =~= workspaces@.take(i as int));
                assert(workspaces@.take(i + 1).last() == index);
            }
            if index < self.base.workspaces.len() {
                let workspace = &self.base.workspaces[index];
                proof {
                    assert(ws[index as int] == workspace@);
                }
                list.push((share(&workspace.files), share(&workspace.line_endings)));
            }
            i = i + 1;
        }
        proof {
            assert(workspaces@.take(i as int) =~= workspaces@);
            assert forall|f: u32| #[trigger] base_endings(list@, f) == base_line_endings(ws, workspaces@, f) by {
                lemma_endings_lookup(list@, ws, workspaces@, f);
            }
        }
        let mut overlay_endings: OrderedMap<u32, LineEndings> = OrderedMap::new();
        match self.overlays.get(&session_id) {
            Some(overlay) => {
                let n = overlay.files_by_path.len();
                let ghost keys = overlay.files_by_path.keys();
                let ghost o = overlay@;
                let mut k: usize = 0;
                proof {
                    assert(o == overlay_or_empty(self@, session_id));
                    assert(self@.overlays.contains_key(session_id));
                }
                while k < n
                    invariant
                        k <= n,
                        n == keys.len(),
                        keys == overlay.files_by_path.keys(),
                        listed(overlay.files_by_path),
                        o == overlay@,
                        o.wf(),
                        forall|f: u32|
                            #[trigger] overlay_endings@.contains_key(f) <==> o.path_by_file.contains_key(f) && keys.take(
                                k as int,
                            ).contains(o.path_by_file[f]),
                        forall|f: u32|
                            #[trigger] overlay_endings@.contains_key(f) ==> overlay_endings@[f] == o.files[o.path_by_file[f]].line_endings,
                    decreases n - k,
                {
                    let file = overlay.files_by_path.value_at(k);
                    let ghost key = keys[k as int];
                    let ghost before = overlay_endings@;
                    proof {
                        assert(overlay.files_by_path@.contains_key(keys[k as int]));
                        assert(o.files.contains_key(key) && o.files[key] == file@);
                        assert(keys.take(k + 1) =~= keys.take(k as int).push(key));
                        assert forall|x: Seq<char>| keys.take(k + 1).contains(x) <==> x == key || keys.take(k as int).contains(x) by {
                            if keys.take(k as int).contains(x) {
                                let j = keys.take(k as int).index_of(x);
                                assert(keys.take(k + 1)[j] == x);
                            }
                            if x == key {
                                assert(keys.take(k + 1)[k as int] == x);
                            }
                        }
                    }
                    overlay_endings.insert(file.overlay_file, file.line_endings);
                    k = k + 1;
                }
                proof {
                    assert(keys.take(n as int) =~= keys);
                    assert(overlay_endings@.dom() =~= o.path_by_file.dom()) by {
                        assert forall|f: u32| o.path_by_file.contains_key(f) implies overlay_endings@.contains_key(f) by {
                            assert(overlay.files_by_path@.contains_key(o.path_by_file[f]));
                        }
                    }
                }
            },
            None => {
                proof {
                    assert(overlay_endings@.dom() =~= overlay_or_empty(self@, session_id).path_by_file.dom());
                }
            },
        }
        SharedLineEndings { workspaces: list, overlay: overlay_endings }
    }

    /// How a session finds files: what it finds under a path is what it is to see there.
    pub fn session_file_mappings(&self, session_id: u64, workspaces: &Vec<usize>) -> (r: SharedFileMappings)
        requires
            self@.overlays.contains_key(session_id) ==> self@.overlays[session_id].wf(),
        ensures
            forall|key: Seq<char>| #[trigger] r.lookup(key) == seen_file(self@, session_id, workspaces@, key),
            forall|key: Seq<char>|
                #[trigger] base_file_of(r.workspaces@, key) == base_file(self@.base.workspaces, workspaces@, key),
            forall|f: u32| #[trigger] base_path_of(r.workspaces@, f) == base_path(self@.base.workspaces, workspaces@, f),
            forall|f: u32|
                #[trigger] some_holds(r.workspaces@, f) == base_file_exists(self@.base.workspaces, workspaces@, f),
            forall|f: u32| #[trigger] some_has(r.workspaces@, f) == in_view(self@.base.workspaces, workspaces@, f),
            r.overlay_by_file@.dom() == overlay_or_empty(self@, session_id).path_by_file.dom(),
            forall|f: u32|
                #[trigger] r.overlay_by_file@.contains_key(f) ==> r.overlay_by_file@[f]@ == overlay_or_empty(
                    self@,
                    session_id,
                ).files[overlay_or_empty(self@, session_id).path_by_file[f]].display_path,
    {
        let ghost ws = self@.base.workspaces;
        let mut list: Vec<Arc<LoadedWorkspaceFiles>> = Vec::new();
        let mut i: usize = 0;
        proof {
            assert(workspaces@.take(0) =~= Seq::empty());
            assert(viewed(ws, workspaces@.take(0)) =~= Seq::empty());
        }
        while i < workspaces.len()
            invariant
                i <= workspaces.len(),
                ws == self@.base.workspaces,
                is_files_of(list@, viewed(ws, workspaces@.take(i as int))),
            decreases workspaces.len() - i,
        {
            let index: usize = workspaces[i];
            proof {
                assert(workspaces@.take(i + 1).drop_last() =~= workspaces@.take(i as int));
                assert(workspaces@.take(i + 1).last() == index);
            }
            if index < self.base.workspaces.len() {
                let workspace = &self.base.workspaces[index];
                proof {
                    assert(ws[index as int] == workspace@);
                }
                list.push(share(&workspace.files));
            }
            i = i + 1;
        }
        proof {
            assert(workspaces@.take(i as int) =~= workspaces@);
            let v = viewed(ws, workspaces@);
            assert forall|key: Seq<char>| #[trigger] base_file_of(list@, key) == base_file(ws, workspaces@, key) by {
                lemma_files_lookups(list@, ws, workspaces@, key, 0);
            }
            assert forall|f: u32| #[trigger] base_path_of(list@, f) == base_path(ws, workspaces@, f) by {
                lemma_files_lookups(list@, ws, workspaces@, Seq::empty(), f);
            }
            assert forall|f: u32| #[trigger] some_holds(list@, f) == base_file_exists(ws, workspaces@, f) by {
                let p = |lw: LoadedView| lw.files.file_exists(f);
                lemma_viewed_member(ws, workspaces@, p);
                if some_holds(list@, f) {
                    let j = choose|j: int| 0 <= j < list@.len() && (#[trigger] list@[j])@.file_exists(f);
                    assert(p(v[j]));
                }
                if exists|j: int| 0 <= j < v.len() && p(#[trigger] v[j]) {
                    let j = choose|j: int| 0 <= j < v.len() && p(#[trigger] v[j]);
                    assert(list@[j]@.file_exists(f));
                }
                if base_file_exists(ws, workspaces@, f) {
                    let j = choose|j: int|
                        0 <= j < workspaces@.len() && (#[trigger] workspaces@[j]) < ws.len() && ws[workspaces@[j] as int].files.file_exists(f);
                    assert(p(ws[workspaces@[j] as int]));
                }
            }
            assert forall|f: u32| #[trigger] some_has(list@, f) == in_view(ws, workspaces@, f) by {
                let p = |lw: LoadedView| lw.files.contains_file(f);
                lemma_viewed_member(ws, workspaces@, p);
                if some_has(list@, f) {
                    let j = choose|j: int| 0 <= j < list@.len() && (#[trigger] list@[j])@.contains_file(f);
                    assert(p(v[j]));
                }
                if exists|j: int| 0 <= j < v.len() && p(#[trigger] v[j]) {
                    let j = choose|j: int| 0 <= j < v.len() && p(#[trigger] v[j]);
                    assert(list@[j]@.contains_file(f));
                }
                if in_view(ws, workspaces@, f) {
                    let j = choose|j: int|
                        0 <= j < workspaces@.len() && (#[trigger] workspaces@[j]) < ws.len() && ws[workspaces@[j] as int].files.contains_file(f);
                    assert(p(ws[workspaces@[j] as int]));
                }
            }
        }
        let (overlay_by_path, overlay_by_file) = match self.overlays.get(&session_id) {
            Some(overlay) => {
                proof {
                    assert(self@.overlays.contains_key(session_id));
                    assert(overlay@ == overlay_or_empty(self@, session_id));
                    assert(overlay_of(self@, session_id) == Some(overlay@));
                }
                overlay.file_mappings()
            },
            None => (OrderedMap::new(), OrderedMap::new()),
        };
        let r = SharedFileMappings { workspaces: list, overlay_by_path, overlay_by_file };
        proof {
            assert(r.overlay_by_file@.dom() =~= overlay_or_empty(self@, session_id).path_by_file.dom());
            assert forall|key: Seq<char>| #[trigger] r.lookup(key) == seen_file(self@, session_id, workspaces@, key) by {
                assert(base_file_of(r.workspaces@, key) == base_file(ws, workspaces@, key));
            }
        }
        r
    }

    /// Whether the path of a file begins with one of the excluded paths. A file without a path is
    /// not excluded.
    pub fn file_is_excluded(&self, file_id: u32, excluded_paths: &Vec<String>) -> (r: bool)
        ensures
            r == file_excluded(self@.base.workspaces, file_id, excluded_paths.deep_view()),
    {
        proof {
            assert(excluded_paths.deep_view().len() == excluded_paths@.len());
        }
        if excluded_paths.len() == 0 {
            return false;
        }
        let ghost ws = self@.base.workspaces;
        let mut i: usize = 0;
        proof {
            assert(ws.skip(0) =~= ws);
        }
        while i < self.base.workspaces.len()
            invariant
                i <= self.base.workspaces.len(),
                ws == self@.base.workspaces,
                world_path(ws, file_id) == world_path(ws.skip(i as int), file_id),
            decreases self.base.workspaces.len() - i,
        {
            proof {
                assert(ws.skip(i as int).drop_first() =~= ws.skip(i + 1));
                assert(ws.skip(i as int)[0] == self.base.workspaces@[i as int]@);
            }
            match self.base.workspaces[i].files.path(file_id) {
                Some(path) => {
                    return matches_excluded(&path.key, excluded_paths);
                },
                None => {},
            }
            i = i + 1;
        }
        false
    }

    /// The root files of the crates that a session sees.
    pub fn session_visible_crate_roots(
        &self,
        session_id: u64,
        workspaces: &Vec<usize>,
        excluded_paths: &Vec<String>,
    ) -> (r: FxHashSet<u32>)
        ensures
            r@ == visible_roots(self@, session_id, workspaces@, excluded_paths.deep_view()),
    {
        let ghost w = self@;
        let ghost o = overlay_or_empty(w, session_id);
        let ghost excluded = excluded_paths.deep_view();
        let overlay = self.overlays.get(&session_id);
        let mut visible = fx_set();
        let mut i: usize = 0;
        proof {
            assert(overlay matches Some(overlay) ==> overlay@ == o);
            assert(overlay is None ==> o == OverlayView::empty());
        }
        while i < self.base.base_crates.len()
            invariant
                i <= self.base.base_crates.len(),
                w == self@,
                o == overlay_or_empty(w, session_id),
                excluded == excluded_paths.deep_view(),
                overlay matches Some(overlay) ==> overlay@ == o,
                overlay is None ==> o == OverlayView::empty(),
                forall|f: u32|
                    #[trigger] visible@.contains(f) <==> exists|c: int|
                        0 <= c < i && is_visible_crate(w, session_id, workspaces@, excluded, c) && (#[trigger] w.base.crates[c]).root_file == f,
            decreases self.base.base_crates.len() - i,
        {
            let krate = &self.base.base_crates[i];
            let overlaid = match overlay {
                Some(overlay) => overlay.crates.contains_key(&krate.id),
                None => false,
            };
            proof {
                assert(w.base.crates[i as int] == krate@);
            }
            let ghost before = visible@;
            let seen = self.base.in_view(workspaces, krate.root_file) && !overlaid && !self.file_is_excluded(
                krate.root_file,
                excluded_paths,
            );
            if seen {
                fx_insert(&mut visible, krate.root_file);
            }
            proof {
                assert(seen == is_visible_crate(w, session_id, workspaces@, excluded, i as int));
                assert forall|f: u32|
                    #[trigger] visible@.contains(f) <==> exists|c: int|
                        0 <= c < i + 1 && is_visible_crate(w, session_id, workspaces@, excluded, c) && (#[trigger] w.base.crates[c]).root_file
                            == f by {
                    assert(before.contains(f) <==> exists|c: int|
                        0 <= c < i && is_visible_crate(w, session_id, workspaces@, excluded, c) && (#[trigger] w.base.crates[c]).root_file == f);
                    if before.contains(f) {
                        let c = choose|c: int|
                            0 <= c < i && is_visible_crate(w, session_id, workspaces@, excluded, c) && (#[trigger] w.base.crates[c]).root_file
                                == f;
                        assert(w.base.crates[c].root_file == f);
                    }
                    if seen && f == krate.root_file {
                        assert(w.base.crates[i as int].root_file == f);
                    }
                }
            }
            i = i + 1;
        }
        let ghost on_disk = visible@;
        match overlay {
            Some(overlay) => {
                let n = overlay.crates.len();
                let mut k: usize = 0;
                while k < n
                    invariant
                        k <= n,
                        n == overlay.crates.keys().len(),
                        listed(overlay.crates),
                        forall|f: u32|
                            #[trigger] visible@.contains(f) <==> on_disk.contains(f) || exists|j: int|
                                0 <= j < k && #[trigger] overlay.crates.values()[j] == f,
                    decreases n - k,
                {
                    let root: u32 = *overlay.crates.value_at(k);
                    let ghost before = visible@;
                    fx_insert(&mut visible, root);
                    proof {
                        assert forall|f: u32|
                            #[trigger] visible@.contains(f) <==> on_disk.contains(f) || exists|j: int|
                                0 <= j < k + 1 && #[trigger] overlay.crates.values()[j] == f by {
                            assert(before.contains(f) <==> on_disk.contains(f) || exists|j: int|
                                0 <= j < k && #[trigger] overlay.crates.values()[j] == f);
                            if f == root {
                                assert(overlay.crates.values()[k as int] == f);
                            }
                            if exists|j: int| 0 <= j < k && #[trigger] overlay.crates.values()[j] == f {
                                let j = choose|j: int| 0 <= j < k && #[trigger] overlay.crates.values()[j] == f;
                                assert(overlay.crates.values()[j] == f);
                            }
                        }
                    }
                    k = k + 1;
                }
                proof {
                    assert forall|f: u32| visible@.contains(f) <==> on_disk.contains(f) || o.crates.contains_value(f) by {
                        let keys = overlay.crates.keys();
                        if exists|j: int| 0 <= j < n && #[trigger] overlay.crates.values()[j] == f {
                            let j = choose|j: int| 0 <= j < n && #[trigger] overlay.crates.values()[j] == f;
                            assert(overlay.crates@.contains_key(keys[j]));
                            assert(o.crates.dom().contains(keys[j]) && o.crates[keys[j]] == f);
                        }
                        if o.crates.contains_value(f) {
                            let k0 = choose|k0: u32| #[trigger] o.crates.dom().contains(k0) && o.crates[k0] == f;
                            assert(overlay.crates@.contains_key(k0));
                            let j = keys.index_of(k0);
                            assert(keys[j] == k0);
                            assert(overlay.crates.values()[j] == f);
                        }
                    }
                }
            },
            None => {
                proof {
                    assert forall|f: u32| !o.crates.contains_value(f) by {}
                }
            },
        }
        proof {
            assert(visible@ =~= visible_roots(w, session_id, workspaces@, excluded));
        }
        visible
    }
}

} // verus!
