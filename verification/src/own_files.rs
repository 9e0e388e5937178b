//! A session sees the files that it has open as it has them.
use crate::base::{base_file, existing_file, in_view, BaseView};
use crate::open_files::{file_matters, files_matter, open_fits, open_synced, planned, PlanView};
use crate::ordered::{lemma_ascending_distinct, lemma_sorted_exists, sorted_keys};
use crate::overlay::{overlay_changed, OverlayFileView};
use crate::overlay_build::{by_path, lemma_by_path};
use crate::overlay_files::{
    all_required, cone_required, dependents_required, files_required, known_roots, open_file_required, open_file_root,
    opened, or_insert, prepared, prepared_file, prepared_list, root_required, OpenFileView, PreparedView, RequiredView,
};
use crate::inputs::RootView;
use crate::privacy::{in_no_overlay, law_session_sees_its_edits, lemma_disk_roots_synced, room_for, seen_file, seen_text};
use crate::rebuild::disk_roots;
use crate::settled::{bases_on_disk, paths_differ};
use crate::sync::{overlay_of, overlay_or_empty, synced};
use crate::update::law_typing_is_seen;
use crate::world::{lemma_base_file_number, listed_under, roots_listed, WorldView};
use vstd::prelude::*;

verus! {

/// Every file is listed under its own path.
spec fn keyed(m: Map<Seq<char>, RequiredView>) -> bool {
    forall|k: Seq<char>| #[trigger] m.contains_key(k) ==> m[k].path.key == k
}

spec fn grows(m: Map<Seq<char>, RequiredView>, n: Map<Seq<char>, RequiredView>) -> bool {
    forall|k: Seq<char>| #[trigger] m.contains_key(k) ==> n.contains_key(k)
}

/// A root that lists the path lists it under the number that the workspaces in view have for it.
pub open spec fn lists_truly(base: BaseView, indexes: Seq<usize>, root: RootView, key: Seq<char>) -> bool {
    forall|f: u32|
        #[trigger] root.files.contains_key(f) && root.files[f].key == key ==> base_file(base.workspaces, indexes, key) == Some(f)
}

/// The file is the root of a crate, or of one that depends on it.
pub open spec fn is_crate_root(base: BaseView, f: u32) -> bool {
    exists|c: int, d: int|
        0 <= c < base.crates.len() && 0 <= d < base.crates[c].transitive_rev_deps.len() && #[trigger] base.crates[c].transitive_rev_deps[d]
            == f
}

/// The source roots of the crates in view list the path, if at all, under the number that the
/// workspaces in view have for it.
pub open spec fn roots_agree(base: BaseView, indexes: Seq<usize>, key: Seq<char>) -> bool {
    forall|f: u32| #[trigger]
        is_crate_root(base, f) && in_view(base.workspaces, indexes, f) ==> lists_truly(
            base,
            indexes,
            base.inputs.roots[base.inputs.file_roots[f] as int],
            key,
        )
}

/// The number was given to a path on disk.
pub open spec fn has_path(ids: Map<Seq<char>, u32>, f: u32) -> bool {
    exists|k: Seq<char>| #[trigger] ids.contains_key(k) && ids[k] == f
}

/// The root holds files on disk, and none of an overlay.
pub open spec fn holds_disk_files(ids: Map<Seq<char>, u32>, root: RootView) -> bool {
    forall|f: u32| #[trigger] root.files.contains_key(f) ==> has_path(ids, f)
}

/// The file is in a source root on disk.
pub open spec fn has_disk_root(w: WorldView, f: u32) -> bool {
    let root = w.base.inputs.file_roots[f] as int;
    root < disk_roots(w).len() && holds_disk_files(w.file_ids, disk_roots(w)[root])
}

/// The crates in view are in source roots on disk.
pub open spec fn rooted_on_disk(w: WorldView, indexes: Seq<usize>) -> bool {
    forall|f: u32| #[trigger] is_crate_root(w.base, f) && in_view(w.base.workspaces, indexes, f) ==> has_disk_root(w, f)
}

/// A file on disk is one file to a session: where the crates in view are in source roots on disk, these
/// list a path that the session's workspaces have under the number that the workspaces have for it.
pub proof fn law_path_in_view_has_one_number(w: WorldView, next: u32, indexes: Seq<usize>, key: Seq<char>)
    requires
        w.wf(next),
        rooted_on_disk(w, indexes),
        base_file(w.base.workspaces, indexes, key) is Some,
    ensures
        roots_agree(w.base, indexes, key),
{
    reveal(roots_listed);
    lemma_base_file_number(w.file_ids, w.base.workspaces, indexes, key);
    let roots = w.base.inputs.roots;
    assert forall|f: u32| #[trigger] is_crate_root(w.base, f) && in_view(w.base.workspaces, indexes, f) implies lists_truly(
        w.base,
        indexes,
        roots[w.base.inputs.file_roots[f] as int],
        key,
    ) by {
        let r = w.base.inputs.file_roots[f] as int;
        assert(has_disk_root(w, f));
        assert(disk_roots(w)[r] == roots[r]);
        assert forall|g: u32| #[trigger] roots[r].files.contains_key(g) && roots[r].files[g].key == key implies base_file(
            w.base.workspaces,
            indexes,
            key,
        ) == Some(g) by {
            assert(has_path(w.file_ids, g));
            let k = choose|k: Seq<char>| #[trigger] w.file_ids.contains_key(k) && w.file_ids[k] == g;
            assert(listed_under(w.file_ids, g, roots[r].files[g].key));
        }
    }
}

/// Crates stay in source roots on disk while overlays come and go: keeping any session's overlay in
/// step moves none of the files on disk into the root of an overlay.
pub proof fn law_crates_stay_rooted_on_disk(
    w: WorldView,
    session: u64,
    indexes: Seq<usize>,
    files: Seq<PreparedView>,
    force: bool,
    next: u32,
    view: Seq<usize>,
)
    requires
        w.wf(next),
        known_roots(w.base, files),
        room_for(w, session, indexes, files, force, next),
        rooted_on_disk(w, view),
    ensures
        rooted_on_disk(synced(w, session, indexes, files, force, next), view),
{
    let r = synced(w, session, indexes, files, force, next);
    lemma_disk_roots_synced(w, session, indexes, files, force, next);
    assert forall|f: u32| #[trigger] is_crate_root(r.base, f) && in_view(r.base.workspaces, view, f) implies has_disk_root(r, f) by {
        assert(is_crate_root(w.base, f));
        assert(in_view(w.base.workspaces, view, f));
        assert(has_disk_root(w, f));
        let (c, d) = choose|c: int, d: int|
            0 <= c < w.base.crates.len() && 0 <= d < w.base.crates[c].transitive_rev_deps.len()
                && #[trigger] w.base.crates[c].transitive_rev_deps[d] == f;
        assert(w.base.inputs.file_roots.contains_key(w.base.crates[c].transitive_rev_deps[d]));
        let x = choose|x: int|
            0 <= x < view.len() && (#[trigger] view[x]) < w.base.workspaces.len()
                && w.base.workspaces[view[x] as int].files.contains_file(f);
        assert(w.base.workspaces[view[x] as int].files.contains_file(f));
        assert(in_no_overlay(w, f)) by {
            assert forall|t: u64| #[trigger] w.overlays.contains_key(t) implies !w.overlays[t].path_by_file.contains_key(f) by {}
        }
        assert(r.base.inputs.file_roots.contains_key(f));
    }
}

spec fn true_to(m: Map<Seq<char>, RequiredView>, base: BaseView, indexes: Seq<usize>, key: Seq<char>) -> bool {
    m.contains_key(key) && m[key].base_file is Some ==> m[key].base_file == base_file(base.workspaces, indexes, key)
}

/// What holds of the needed files throughout.
spec fn fine(m: Map<Seq<char>, RequiredView>, base: BaseView, indexes: Seq<usize>, key: Seq<char>) -> bool {
    m.dom().finite() && keyed(m) && true_to(m, base, indexes, key)
}

proof fn lemma_root(m: Map<Seq<char>, RequiredView>, base: BaseView, indexes: Seq<usize>, key: Seq<char>, id: u32, n: int)
    requires
        base.readable(),
        fine(m, base, indexes, key),
        id < base.inputs.roots.len(),
        lists_truly(base, indexes, base.inputs.roots[id as int], key),
        n <= sorted_keys::<u32>(base.inputs.roots[id as int].files.dom()).len(),
    ensures
        fine(root_required(m, base.inputs.roots[id as int], id, n), base, indexes, key),
        grows(m, root_required(m, base.inputs.roots[id as int], id, n)),
    decreases n,
{
    if n > 0 {
        lemma_root(m, base, indexes, key, id, n - 1);
        let root = base.inputs.roots[id as int];
        let keys = sorted_keys::<u32>(root.files.dom());
        let file = keys[n - 1];
        lemma_sorted_exists::<u32>(root.files.dom());
        assert(keys.to_set().contains(file));
        assert(root.files.contains_key(file));
        let before = root_required(m, root, id, n - 1);
        let after = root_required(m, root, id, n);
        let k = root.files[file].key;
        if !before.contains_key(k) {
            assert(after.dom() =~= before.dom().insert(k));
        }
    }
}

proof fn lemma_dependents(m: Map<Seq<char>, RequiredView>, base: BaseView, indexes: Seq<usize>, key: Seq<char>, c: int, n: int)
    requires
        base.readable(),
        fine(m, base, indexes, key),
        roots_agree(base, indexes, key),
        0 <= c < base.crates.len(),
        n <= base.crates[c].transitive_rev_deps.len(),
    ensures
        fine(dependents_required(m, base, indexes, base.crates[c].transitive_rev_deps, n), base, indexes, key),
        grows(m, dependents_required(m, base, indexes, base.crates[c].transitive_rev_deps, n)),
    decreases n,
{
    if n > 0 {
        lemma_dependents(m, base, indexes, key, c, n - 1);
        let roots = base.crates[c].transitive_rev_deps;
        let file = base.crates[c].transitive_rev_deps[n - 1];
        assert(base.inputs.file_roots.contains_key(file));
        let id = base.inputs.file_roots[file];
        let before = dependents_required(m, base, indexes, roots, n - 1);
        if in_view(base.workspaces, indexes, file) {
            assert(is_crate_root(base, file));
            lemma_root(before, base, indexes, key, id, sorted_keys::<u32>(base.inputs.roots[id as int].files.dom()).len() as int);
        }
        assert(grows(m, before));
        let after = dependents_required(m, base, indexes, roots, n);
        assert forall|k: Seq<char>| #[trigger] m.contains_key(k) implies after.contains_key(k) by {
            assert(before.contains_key(k));
        }
    }
}

proof fn lemma_cone(m: Map<Seq<char>, RequiredView>, base: BaseView, indexes: Seq<usize>, key: Seq<char>, root: u32, n: int)
    requires
        base.readable(),
        fine(m, base, indexes, key),
        roots_agree(base, indexes, key),
        n <= base.crates.len(),
    ensures
        fine(cone_required(m, base, indexes, root, n), base, indexes, key),
        grows(m, cone_required(m, base, indexes, root, n)),
    decreases n,
{
    if n > 0 {
        lemma_cone(m, base, indexes, key, root, n - 1);
        let before = cone_required(m, base, indexes, root, n - 1);
        lemma_dependents(before, base, indexes, key, n - 1, base.crates[n - 1].transitive_rev_deps.len() as int);
        let after = cone_required(m, base, indexes, root, n);
        assert forall|k: Seq<char>| #[trigger] m.contains_key(k) implies after.contains_key(k) by {
            assert(before.contains_key(k));
        }
    }
}

proof fn lemma_open_file(m: Map<Seq<char>, RequiredView>, base: BaseView, indexes: Seq<usize>, key: Seq<char>, file: OpenFileView)
    requires
        base.readable(),
        fine(m, base, indexes, key),
        roots_agree(base, indexes, key),
    ensures
        fine(open_file_required(m, base, indexes, file), base, indexes, key),
        grows(m, open_file_required(m, base, indexes, file)),
        open_file_root(base, indexes, file) is Some ==> open_file_required(m, base, indexes, file).contains_key(file.path.key),
{
    match open_file_root(base, indexes, file) {
        Some(root) => {
            let own = RequiredView {
                base_file: existing_file(base.workspaces, indexes, file.path.key),
                base_source_root: root,
                path: file.path.normalized(),
            };
            let with_own = or_insert(m, file.path.key, own);
            if !m.contains_key(file.path.key) {
                assert(with_own.dom() =~= m.dom().insert(file.path.key));
            }
            lemma_cone(with_own, base, indexes, key, root, base.crates.len() as int);
            let after = open_file_required(m, base, indexes, file);
            assert(with_own.contains_key(file.path.key));
            assert forall|k: Seq<char>| #[trigger] m.contains_key(k) implies after.contains_key(k) by {
                assert(with_own.contains_key(k));
            }
        },
        None => {},
    }
}

proof fn lemma_opened(files: Seq<OpenFileView>)
    requires
        files.len() <= usize::MAX,
    ensures
        opened(files).dom().finite(),
        forall|k: Seq<char>| #[trigger] opened(files).contains_key(k) ==> opened(files)[k] < files.len(),
        forall|at: int|
            0 <= at < files.len() && (forall|j: int| at < j < files.len() ==> (#[trigger] files[j]).path.key != files[at].path.key)
                ==> opened(files).contains_key((#[trigger] files[at]).path.key) && opened(files)[files[at].path.key] == at,
    decreases files.len(),
{
    if files.len() > 0 {
        let front = files.drop_last();
        lemma_opened(front);
        assert(opened(files).dom() =~= opened(front).dom().insert(files.last().path.key));
        assert forall|k: Seq<char>| #[trigger] opened(files).contains_key(k) implies opened(files)[k] < files.len() by {
            if k != files.last().path.key {
                assert(opened(front).contains_key(k));
            }
        }
        assert forall|at: int|
            0 <= at < files.len() && (forall|j: int| at < j < files.len() ==> (#[trigger] files[j]).path.key != files[at].path.key) implies opened(
            files,
        ).contains_key((#[trigger] files[at]).path.key) && opened(files)[files[at].path.key] == at by {
            if at < files.len() - 1 {
                assert(files[files.len() - 1].path.key != files[at].path.key);
                assert(front[at] == files[at]);
                assert forall|j: int| at < j < front.len() implies (#[trigger] front[j]).path.key != front[at].path.key by {
                    assert(files[j].path.key != files[at].path.key);
                }
            }
        }
    }
}

proof fn lemma_files_required(base: BaseView, indexes: Seq<usize>, files: Seq<OpenFileView>, key: Seq<char>, n: int)
    requires
        base.readable(),
        roots_agree(base, indexes, key),
        files.len() <= usize::MAX,
        0 <= n <= sorted_keys::<String>(opened(files).dom()).len(),
    ensures
        fine(files_required(base, indexes, files, n), base, indexes, key),
        forall|x: int|
            0 <= x < n && open_file_root(base, indexes, files[opened(files)[(#[trigger] sorted_keys::<String>(opened(files).dom())[x])] as int]) is Some
                ==> files_required(base, indexes, files, n).contains_key(
                files[opened(files)[sorted_keys::<String>(opened(files).dom())[x]] as int].path.key,
            ),
    decreases n,
{
    if n > 0 {
        lemma_files_required(base, indexes, files, key, n - 1);
        let before = files_required(base, indexes, files, n - 1);
        let keys = sorted_keys::<String>(opened(files).dom());
        let file = files[opened(files)[keys[n - 1]] as int];
        lemma_open_file(before, base, indexes, key, file);
        let after = files_required(base, indexes, files, n);
        assert forall|x: int| 0 <= x < n && open_file_root(base, indexes, files[opened(files)[(#[trigger] keys[x])] as int]) is Some implies after.contains_key(
            files[opened(files)[keys[x]] as int].path.key,
        ) by {
            if x < n - 1 {
                assert(before.contains_key(files[opened(files)[keys[x]] as int].path.key));
            }
        }
    } else {
        assert(files_required(base, indexes, files, n) =~= Map::empty());
    }
}

/// The entry of a needed file among the prepared ones.
spec fn entry(p: Seq<PreparedView>, key: Seq<char>) -> Option<PreparedView> {
    if by_path(p).contains_key(key) {
        Some(p[by_path(p)[key] as int])
    } else {
        None
    }
}

proof fn lemma_prepared_list(base: BaseView, indexes: Seq<usize>, files: Seq<OpenFileView>, n: int)
    requires
        keyed(all_required(base, indexes, files)),
        all_required(base, indexes, files).dom().finite(),
        0 <= n <= sorted_keys::<String>(all_required(base, indexes, files).dom()).len(),
        prepared_list(base, indexes, files, n).len() <= usize::MAX,
    ensures
        forall|x: int|
            0 <= x < n ==> entry(
                prepared_list(base, indexes, files, n),
                #[trigger] sorted_keys::<String>(all_required(base, indexes, files).dom())[x],
            ) == prepared_file(
                base,
                indexes,
                files,
                sorted_keys::<String>(all_required(base, indexes, files).dom())[x],
                all_required(base, indexes, files)[sorted_keys::<String>(all_required(base, indexes, files).dom())[x]],
            ),
        forall|k: Seq<char>|
            #[trigger] by_path(prepared_list(base, indexes, files, n)).contains_key(k) ==> exists|x: int|
                0 <= x < n && #[trigger] sorted_keys::<String>(all_required(base, indexes, files).dom())[x] == k,
    decreases n,
{
    let required = all_required(base, indexes, files);
    let keys = sorted_keys::<String>(required.dom());
    lemma_sorted_exists::<String>(required.dom());
    lemma_ascending_distinct::<String>(keys);
    if n > 0 {
        lemma_prepared_list(base, indexes, files, n - 1);
        let before = prepared_list(base, indexes, files, n - 1);
        let after = prepared_list(base, indexes, files, n);
        let key = keys[n - 1];
        assert(keys.to_set().contains(key));
        assert(required.contains_key(key));
        let made = prepared_file(base, indexes, files, key, required[key]);
        lemma_by_path(before);
        if made is Some {
            assert(after == before.push(made->0));
            assert(after.drop_last() =~= before);
            assert(made->0.path.key == key);
        }
        assert forall|x: int| 0 <= x < n implies entry(after, #[trigger] keys[x]) == prepared_file(
            base,
            indexes,
            files,
            keys[x],
            required[keys[x]],
        ) by {
            if x < n - 1 {
                assert(keys[x] != keys[n - 1]);
                assert(entry(before, keys[x]) == prepared_file(base, indexes, files, keys[x], required[keys[x]]));
                assert(entry(after, keys[x]) == entry(before, keys[x]));
            } else if made is None {
                if by_path(before).contains_key(key) {
                    let y = choose|y: int| 0 <= y < n - 1 && #[trigger] keys[y] == key;
                    assert(keys[y] != keys[n - 1]);
                }
            }
        }
        assert forall|k: Seq<char>| #[trigger] by_path(after).contains_key(k) implies exists|x: int| 0 <= x < n && #[trigger] keys[x] == k by {
            if by_path(before).contains_key(k) {
                let y = choose|y: int| 0 <= y < n - 1 && #[trigger] keys[y] == k;
                assert(keys[y] == k);
            } else {
                assert(keys[n - 1] == k);
            }
        }
    }
}

proof fn lemma_prepared_differ(base: BaseView, indexes: Seq<usize>, files: Seq<OpenFileView>, n: int)
    requires
        keyed(all_required(base, indexes, files)),
        all_required(base, indexes, files).dom().finite(),
        0 <= n <= sorted_keys::<String>(all_required(base, indexes, files).dom()).len(),
    ensures
        paths_differ(prepared_list(base, indexes, files, n)),
        forall|i: int|
            0 <= i < prepared_list(base, indexes, files, n).len() ==> sorted_keys::<String>(
                all_required(base, indexes, files).dom(),
            ).take(n).contains((#[trigger] prepared_list(base, indexes, files, n)[i]).path.key),
    decreases n,
{
    if n > 0 {
        lemma_prepared_differ(base, indexes, files, n - 1);
        let required = all_required(base, indexes, files);
        let keys = sorted_keys::<String>(required.dom());
        lemma_sorted_exists::<String>(required.dom());
        lemma_ascending_distinct::<String>(keys);
        let key = keys[n - 1];
        assert(keys.to_set().contains(key));
        let before = prepared_list(base, indexes, files, n - 1);
        let after = prepared_list(base, indexes, files, n);
        assert(keys.take(n)[n - 1] == key);
        assert forall|i: int| 0 <= i < before.len() implies before[i].path.key != key && keys.take(n).contains(
            (#[trigger] before[i]).path.key,
        ) by {
            let x = keys.take(n - 1).index_of(before[i].path.key);
            assert(keys[x] != keys[n - 1]);
            assert(keys.take(n)[x] == before[i].path.key);
        }
    }
}

/// The needed files that stand for others have numbers of files on disk.
spec fn based(m: Map<Seq<char>, RequiredView>, ids: Map<Seq<char>, u32>) -> bool {
    &&& m.dom().finite()
    &&& keyed(m)
    &&& forall|k: Seq<char>| #[trigger] m.contains_key(k) ==> (m[k].base_file matches Some(f) ==> has_path(ids, f))
}

proof fn lemma_based_root(m: Map<Seq<char>, RequiredView>, ids: Map<Seq<char>, u32>, root: RootView, id: u32, n: int)
    requires
        based(m, ids),
        holds_disk_files(ids, root),
        root.files.dom().finite(),
        n <= sorted_keys::<u32>(root.files.dom()).len(),
    ensures
        based(root_required(m, root, id, n), ids),
    decreases n,
{
    if n > 0 {
        lemma_based_root(m, ids, root, id, n - 1);
        let keys = sorted_keys::<u32>(root.files.dom());
        lemma_sorted_exists::<u32>(root.files.dom());
        assert(keys.to_set().contains(keys[n - 1]));
        assert(root.files.contains_key(keys[n - 1]));
        let before = root_required(m, root, id, n - 1);
        let k = root.files[keys[n - 1]].key;
        if !before.contains_key(k) {
            assert(root_required(m, root, id, n).dom() =~= before.dom().insert(k));
        }
    }
}

proof fn lemma_based_cone(m: Map<Seq<char>, RequiredView>, w: WorldView, next: u32, indexes: Seq<usize>, root: u32, c: int, n: int)
    requires
        w.wf(next),
        rooted_on_disk(w, indexes),
        based(m, w.file_ids),
        0 <= c <= w.base.crates.len(),
        c < w.base.crates.len() ==> 0 <= n <= w.base.crates[c].transitive_rev_deps.len(),
    ensures
        based(cone_required(m, w.base, indexes, root, c), w.file_ids),
        c < w.base.crates.len() ==> based(
            dependents_required(
                cone_required(m, w.base, indexes, root, c),
                w.base,
                indexes,
                w.base.crates[c].transitive_rev_deps,
                n,
            ),
            w.file_ids,
        ),
    decreases c, n,
{
    let base = w.base;
    if c > 0 {
        lemma_based_cone(m, w, next, indexes, root, c - 1, base.crates[c - 1].transitive_rev_deps.len() as int);
    }
    if c < base.crates.len() && n > 0 {
        lemma_based_cone(m, w, next, indexes, root, c, n - 1);
        let before = cone_required(m, base, indexes, root, c);
        let roots = base.crates[c].transitive_rev_deps;
        let file = roots[n - 1];
        if in_view(base.workspaces, indexes, file) {
            assert(base.inputs.file_roots.contains_key(base.crates[c].transitive_rev_deps[n - 1]));
            let id = base.inputs.file_roots[file];
            assert(is_crate_root(base, file));
            assert(has_disk_root(w, file));
            assert(disk_roots(w)[id as int] == base.inputs.roots[id as int]);
            lemma_based_root(
                dependents_required(before, base, indexes, roots, n - 1),
                w.file_ids,
                base.inputs.roots[id as int],
                id,
                sorted_keys::<u32>(base.inputs.roots[id as int].files.dom()).len() as int,
            );
        }
    }
}

proof fn lemma_based_files(w: WorldView, next: u32, indexes: Seq<usize>, files: Seq<OpenFileView>, n: int)
    requires
        w.wf(next),
        rooted_on_disk(w, indexes),
        0 <= n <= sorted_keys::<String>(opened(files).dom()).len(),
    ensures
        based(files_required(w.base, indexes, files, n), w.file_ids),
    decreases n,
{
    if n > 0 {
        lemma_based_files(w, next, indexes, files, n - 1);
        let before = files_required(w.base, indexes, files, n - 1);
        let file = files[opened(files)[sorted_keys::<String>(opened(files).dom())[n - 1]] as int];
        let key = file.path.key;
        match open_file_root(w.base, indexes, file) {
            Some(root) => {
                lemma_base_file_number(w.file_ids, w.base.workspaces, indexes, key);
                let own = RequiredView {
                    base_file: existing_file(w.base.workspaces, indexes, key),
                    base_source_root: root,
                    path: file.path.normalized(),
                };
                if own.base_file is Some {
                    assert(w.file_ids.contains_key(key) && w.file_ids[key] == own.base_file->0);
                }
                let with_own = or_insert(before, key, own);
                if !before.contains_key(key) {
                    assert(with_own.dom() =~= before.dom().insert(key));
                }
                lemma_based_cone(with_own, w, next, indexes, root, w.base.crates.len() as int, 0);
            },
            None => {},
        }
    }
}

proof fn lemma_based_list(base: BaseView, ids: Map<Seq<char>, u32>, indexes: Seq<usize>, files: Seq<OpenFileView>, n: int)
    requires
        based(all_required(base, indexes, files), ids),
        0 <= n <= sorted_keys::<String>(all_required(base, indexes, files).dom()).len(),
    ensures
        forall|i: int|
            0 <= i < prepared_list(base, indexes, files, n).len() ==> ((#[trigger] prepared_list(base, indexes, files, n)[i]).base_file matches Some(
                f,
            ) ==> has_path(ids, f)),
    decreases n,
{
    if n > 0 {
        lemma_based_list(base, ids, indexes, files, n - 1);
        let required = all_required(base, indexes, files);
        let keys = sorted_keys::<String>(required.dom());
        lemma_sorted_exists::<String>(required.dom());
        assert(keys.to_set().contains(keys[n - 1]));
        assert(required.contains_key(keys[n - 1]));
        let before = prepared_list(base, indexes, files, n - 1);
        let after = prepared_list(base, indexes, files, n);
        assert forall|i: int| 0 <= i < after.len() implies ((#[trigger] after[i]).base_file matches Some(f) ==> has_path(ids, f)) by {
            if i < before.len() {
                assert(before[i] == after[i]);
            }
        }
    }
}

/// What open files need comes from the disk: where the crates in view are in source roots on disk, the
/// files that go into the overlay stand for files on disk, and each path is among them once.
pub proof fn law_needed_files_are_on_disk(w: WorldView, next: u32, indexes: Seq<usize>, files: Seq<OpenFileView>)
    requires
        w.wf(next),
        rooted_on_disk(w, indexes),
    ensures
        bases_on_disk(w, prepared(w.base, indexes, files)),
        paths_differ(prepared(w.base, indexes, files)),
{
    lemma_based_files(w, next, indexes, files, sorted_keys::<String>(opened(files).dom()).len() as int);
    let count = sorted_keys::<String>(all_required(w.base, indexes, files).dom()).len() as int;
    lemma_based_list(w.base, w.file_ids, indexes, files, count);
    lemma_prepared_differ(w.base, indexes, files, count);
}

/// The files that open files need have different paths.
pub proof fn lemma_prepared_paths(base: BaseView, indexes: Seq<usize>, files: Seq<OpenFileView>, key: Seq<char>)
    requires
        base.readable(),
        files.len() <= usize::MAX,
        roots_agree(base, indexes, key),
    ensures
        paths_differ(prepared(base, indexes, files)),
{
    lemma_opened(files);
    let open_keys = sorted_keys::<String>(opened(files).dom());
    lemma_files_required(base, indexes, files, key, open_keys.len() as int);
    let keys = sorted_keys::<String>(all_required(base, indexes, files).dom());
    lemma_prepared_differ(base, indexes, files, keys.len() as int);
}

/// A file that is needed and not open goes into the overlay with the text on disk.
pub proof fn lemma_prepared_unopened(base: BaseView, indexes: Seq<usize>, files: Seq<OpenFileView>, key: Seq<char>)
    requires
        base.readable(),
        files.len() <= usize::MAX,
        prepared(base, indexes, files).len() <= usize::MAX,
        !opened(files).contains_key(key),
        roots_agree(base, indexes, key),
    ensures
        ({
            let p = prepared(base, indexes, files);
            by_path(p).contains_key(key) ==> base_file(base.workspaces, indexes, key) is Some && p[by_path(p)[key] as int].text
                == base.inputs.texts[base_file(base.workspaces, indexes, key)->0]
        }),
{
    let p = prepared(base, indexes, files);
    lemma_opened(files);
    let open_keys = sorted_keys::<String>(opened(files).dom());
    lemma_files_required(base, indexes, files, key, open_keys.len() as int);
    let required = all_required(base, indexes, files);
    let keys = sorted_keys::<String>(required.dom());
    lemma_sorted_exists::<String>(required.dom());
    lemma_prepared_list(base, indexes, files, keys.len() as int);
    if by_path(p).contains_key(key) {
        let x = choose|x: int| 0 <= x < keys.len() && #[trigger] keys[x] == key;
        assert(keys[x] == key);
        assert(keys.to_set().contains(key));
        assert(entry(p, keys[x]) == prepared_file(base, indexes, files, key, required[key]));
    }
}

/// An open file that is in a source root goes into the overlay with its text.
proof fn lemma_prepared_open(base: BaseView, indexes: Seq<usize>, files: Seq<OpenFileView>, at: int)
    requires
        base.readable(),
        files.len() <= usize::MAX,
        prepared(base, indexes, files).len() <= usize::MAX,
        0 <= at < files.len(),
        forall|j: int| at < j < files.len() ==> (#[trigger] files[j]).path.key != files[at].path.key,
        open_file_root(base, indexes, files[at]) is Some,
        roots_agree(base, indexes, files[at].path.key),
    ensures
        ({
            let p = prepared(base, indexes, files);
            let key = files[at].path.key;
            let e = p[by_path(p)[key] as int];
            &&& by_path(p).contains_key(key)
            &&& by_path(p)[key] < p.len()
            &&& e.is_open
            &&& e.path.key == key
            &&& e.text == files[at].text
            &&& e.base_file is Some ==> e.base_file == base_file(base.workspaces, indexes, key)
        }),
{
    let key = files[at].path.key;
    lemma_opened(files);
    let open_keys = sorted_keys::<String>(opened(files).dom());
    lemma_sorted_exists::<String>(opened(files).dom());
    assert(files[at].path.key == key);
    assert(opened(files).dom().contains(key));
    assert(open_keys.to_set().contains(key));
    let x = open_keys.index_of(key);
    assert(open_keys[x] == key);
    lemma_files_required(base, indexes, files, key, open_keys.len() as int);
    let required = all_required(base, indexes, files);
    assert(required.contains_key(key));
    let keys = sorted_keys::<String>(required.dom());
    lemma_sorted_exists::<String>(required.dom());
    assert(keys.to_set().contains(key));
    let y = keys.index_of(key);
    assert(keys[y] == key);
    lemma_prepared_list(base, indexes, files, keys.len() as int);
    let p = prepared(base, indexes, files);
    assert(entry(p, keys[y]) == prepared_file(base, indexes, files, key, required[key]));
    lemma_by_path(p);
}

/// A session sees its open files as it has them: once its overlay is in step, each of them that lies
/// in a source root shows the last text given for its path, whether it is saved or not.
pub proof fn law_open_files_are_seen(
    w: WorldView,
    session: u64,
    indexes: Seq<usize>,
    files: Seq<OpenFileView>,
    force: bool,
    next: u32,
    at: int,
)
    requires
        w.wf(next),
        open_fits(w, session, indexes, files, force, next),
        files.len() <= usize::MAX,
        prepared(w.base, indexes, files).len() <= usize::MAX,
        0 <= at < files.len(),
        forall|j: int| at < j < files.len() ==> (#[trigger] files[j]).path.key != files[at].path.key,
        open_file_root(w.base, indexes, files[at]) is Some,
        roots_agree(w.base, indexes, files[at].path.key),
    ensures
        seen_text(open_synced(w, session, indexes, files, force, next), session, indexes, files[at].path.key) == Some(
            files[at].text,
        ),
{
    let key = files[at].path.key;
    let needed = prepared(w.base, indexes, files);
    lemma_prepared_open(w.base, indexes, files, at);
    crate::overlay_files::lemma_prepared_known(w.base, indexes, files);
    match planned(w, session, indexes, files, force) {
        PlanView::Update => {
            law_typing_is_seen(w, session, files, next, indexes, at);
        },
        PlanView::Rebuild(list) => {
            law_session_sees_its_edits(w, session, indexes, list, force, next, key);
        },
        PlanView::Keep => {
            if files_matter(w, session, indexes, files) {
                assert(!force && !overlay_changed(w.base, indexes, overlay_of(w, session), needed));
                law_session_sees_its_edits(w, session, indexes, needed, false, next, key);
            } else {
                let overlay = overlay_or_empty(w, session);
                assert(overlay.files == Map::<Seq<char>, OverlayFileView>::empty());
                assert(!file_matters(w, indexes, files[at]));
                let on_disk = existing_file(w.base.workspaces, indexes, key);
                assert(on_disk is Some);
                assert(!overlay.files.contains_key(key));
                assert(seen_file(w, session, indexes, key) == on_disk);
            }
        },
    }
}

} // verus!
