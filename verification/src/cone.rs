//! What a session's overlay is made of: the open files, what depends on them, and the crates that it
//! covers.
use crate::base::{
    best_of_files, best_of_workspaces, existing_file, in_view, source_root_for_path, BaseView, BestRoot, LoadedView,
};
use crate::inputs::RootView;
use crate::ordered::{lemma_sorted_exists, sorted_keys};
use crate::overlay::{overlaid_crates, overlay_changed, overlay_needed, OverlayView};
use crate::overlay_build::{all_dropped, by_path, dropped, still_applied, still_applied_to};
use crate::overlay_files::{
    all_required, cone_required, dependents_required, files_required, open_file_root, opened, prepared_file, root_required,
    whole_root_required, OpenFileView, PreparedView, RequiredView,
};
use crate::paths::{common_path, law_common_path_is_symmetric};
use vstd::prelude::*;
use vstd::utf8::encode_utf8;

verus! {

/// The source root holds a file under the path.
pub open spec fn lies_in(root: RootView, key: Seq<char>) -> bool {
    exists|f: u32| #[trigger] root.files.contains_key(f) && root.files[f].key == key
}

/// A file is in view exactly when one of the workspaces in view has it.
pub proof fn law_view_is_of_its_workspaces(ws: Seq<LoadedView>, view: Seq<usize>, file: u32)
    ensures
        in_view(ws, view, file) <==> exists|p: int|
            0 <= p < view.len() && (#[trigger] view[p]) < ws.len() && ws[view[p] as int].files.by_id.contains_key(file),
{
    if exists|p: int| 0 <= p < view.len() && (#[trigger] view[p]) < ws.len() && ws[view[p] as int].files.by_id.contains_key(file) {
        let p = choose|p: int|
            0 <= p < view.len() && (#[trigger] view[p]) < ws.len() && ws[view[p] as int].files.by_id.contains_key(file);
        assert(view[p] < ws.len() && ws[view[p] as int].files.contains_file(file));
    }
}

/// The path is one of a crate in view that depends on a crate of the source root.
pub open spec fn depends_on_root(base: BaseView, view: Seq<usize>, root: u32, key: Seq<char>) -> bool {
    exists|c: int, d: int|
        0 <= c < base.crates.len() && 0 <= d < base.crates[c].transitive_rev_deps.len()
            && base.inputs.file_roots[base.crates[c].root_file] == root && in_view(
            base.workspaces,
            view,
            #[trigger] base.crates[c].transitive_rev_deps[d],
        ) && lies_in(base.inputs.roots[base.inputs.file_roots[base.crates[c].transitive_rev_deps[d]] as int], key)
}

proof fn lemma_root(m: Map<Seq<char>, RequiredView>, root: RootView, id: u32, n: int, key: Seq<char>)
    requires
        root.files.dom().finite(),
        0 <= n <= sorted_keys::<u32>(root.files.dom()).len(),
    ensures
        root_required(m, root, id, n).contains_key(key) <==> m.contains_key(key) || exists|j: int|
            0 <= j < n && root.files[#[trigger] sorted_keys::<u32>(root.files.dom())[j]].key == key,
    decreases n,
{
    if n > 0 {
        lemma_root(m, root, id, n - 1, key);
        let keys = sorted_keys::<u32>(root.files.dom());
        let before = root_required(m, root, id, n - 1);
        if root_required(m, root, id, n).contains_key(key) && !m.contains_key(key) {
            if before.contains_key(key) {
                let j = choose|j: int| 0 <= j < n - 1 && root.files[#[trigger] keys[j]].key == key;
                assert(root.files[keys[j]].key == key);
            } else {
                assert(root.files[keys[n - 1]].key == key);
            }
        }
    }
}

proof fn lemma_whole_root(m: Map<Seq<char>, RequiredView>, root: RootView, id: u32, key: Seq<char>)
    requires
        root.files.dom().finite(),
    ensures
        whole_root_required(m, root, id).contains_key(key) <==> m.contains_key(key) || lies_in(root, key),
{
    let keys = sorted_keys::<u32>(root.files.dom());
    lemma_sorted_exists::<u32>(root.files.dom());
    lemma_root(m, root, id, keys.len() as int, key);
    if exists|j: int| 0 <= j < keys.len() && root.files[#[trigger] keys[j]].key == key {
        let j = choose|j: int| 0 <= j < keys.len() && root.files[#[trigger] keys[j]].key == key;
        assert(keys.to_set().contains(keys[j]));
        assert(root.files.contains_key(keys[j]));
    }
    if lies_in(root, key) {
        let f = choose|f: u32| #[trigger] root.files.contains_key(f) && root.files[f].key == key;
        assert(keys.to_set().contains(f));
        let j = keys.index_of(f);
        assert(root.files[keys[j]].key == key);
    }
}

proof fn lemma_dependents(m: Map<Seq<char>, RequiredView>, base: BaseView, view: Seq<usize>, c: int, n: int, key: Seq<char>)
    requires
        base.readable(),
        0 <= c < base.crates.len(),
        0 <= n <= base.crates[c].transitive_rev_deps.len(),
    ensures
        dependents_required(m, base, view, base.crates[c].transitive_rev_deps, n).contains_key(key) <==> m.contains_key(key)
            || exists|d: int|
            0 <= d < n && in_view(base.workspaces, view, #[trigger] base.crates[c].transitive_rev_deps[d]) && lies_in(
                base.inputs.roots[base.inputs.file_roots[base.crates[c].transitive_rev_deps[d]] as int],
                key,
            ),
    decreases n,
{
    let deps = base.crates[c].transitive_rev_deps;
    if n > 0 {
        lemma_dependents(m, base, view, c, n - 1, key);
        let before = dependents_required(m, base, view, deps, n - 1);
        let file = base.crates[c].transitive_rev_deps[n - 1];
        assert(base.inputs.file_roots.contains_key(file));
        let id = base.inputs.file_roots[file];
        assert(id < base.inputs.roots.len());
        assert(base.inputs.roots[id as int].files.dom().finite());
        lemma_whole_root(before, base.inputs.roots[id as int], id, key);
        if dependents_required(m, base, view, deps, n).contains_key(key) && !m.contains_key(key) {
            if before.contains_key(key) {
                let d = choose|d: int|
                    0 <= d < n - 1 && in_view(base.workspaces, view, #[trigger] base.crates[c].transitive_rev_deps[d]) && lies_in(
                        base.inputs.roots[base.inputs.file_roots[base.crates[c].transitive_rev_deps[d]] as int],
                        key,
                    );
                assert(in_view(base.workspaces, view, base.crates[c].transitive_rev_deps[d]));
            } else {
                assert(in_view(base.workspaces, view, base.crates[c].transitive_rev_deps[n - 1]));
            }
        }
    }
}

spec fn depends_to(base: BaseView, view: Seq<usize>, root: u32, key: Seq<char>, n: int) -> bool {
    exists|c: int, d: int|
        0 <= c < n && 0 <= d < base.crates[c].transitive_rev_deps.len() && base.inputs.file_roots[base.crates[c].root_file] == root
            && in_view(base.workspaces, view, #[trigger] base.crates[c].transitive_rev_deps[d]) && lies_in(
            base.inputs.roots[base.inputs.file_roots[base.crates[c].transitive_rev_deps[d]] as int],
            key,
        )
}

proof fn lemma_cone(m: Map<Seq<char>, RequiredView>, base: BaseView, view: Seq<usize>, root: u32, n: int, key: Seq<char>)
    requires
        base.readable(),
        0 <= n <= base.crates.len(),
    ensures
        cone_required(m, base, view, root, n).contains_key(key) <==> m.contains_key(key) || depends_to(base, view, root, key, n),
    decreases n,
{
    if n > 0 {
        lemma_cone(m, base, view, root, n - 1, key);
        let before = cone_required(m, base, view, root, n - 1);
        let krate = base.crates[n - 1];
        lemma_dependents(before, base, view, n - 1, krate.transitive_rev_deps.len() as int, key);
        if depends_to(base, view, root, key, n - 1) {
            let (c, d) = choose|c: int, d: int|
                0 <= c < n - 1 && 0 <= d < base.crates[c].transitive_rev_deps.len()
                    && base.inputs.file_roots[base.crates[c].root_file] == root && in_view(
                    base.workspaces,
                    view,
                    #[trigger] base.crates[c].transitive_rev_deps[d],
                ) && lies_in(base.inputs.roots[base.inputs.file_roots[base.crates[c].transitive_rev_deps[d]] as int], key);
            assert(in_view(base.workspaces, view, base.crates[c].transitive_rev_deps[d]));
            assert(depends_to(base, view, root, key, n));
        }
        if base.inputs.file_roots[krate.root_file] == root && !before.contains_key(key) && cone_required(
            m,
            base,
            view,
            root,
            n,
        ).contains_key(key) {
            let d = choose|d: int|
                0 <= d < krate.transitive_rev_deps.len() && in_view(
                    base.workspaces,
                    view,
                    #[trigger] base.crates[n - 1].transitive_rev_deps[d],
                ) && lies_in(base.inputs.roots[base.inputs.file_roots[base.crates[n - 1].transitive_rev_deps[d]] as int], key);
            assert(in_view(base.workspaces, view, base.crates[n - 1].transitive_rev_deps[d]));
            assert(depends_to(base, view, root, key, n));
        }
        if depends_to(base, view, root, key, n) && !depends_to(base, view, root, key, n - 1) {
            let (c, d) = choose|c: int, d: int|
                0 <= c < n && 0 <= d < base.crates[c].transitive_rev_deps.len()
                    && base.inputs.file_roots[base.crates[c].root_file] == root && in_view(
                    base.workspaces,
                    view,
                    #[trigger] base.crates[c].transitive_rev_deps[d],
                ) && lies_in(base.inputs.roots[base.inputs.file_roots[base.crates[c].transitive_rev_deps[d]] as int], key);
            if c < n - 1 {
                assert(in_view(base.workspaces, view, base.crates[c].transitive_rev_deps[d]));
                assert(depends_to(base, view, root, key, n - 1));
            }
            assert(c == n - 1);
            assert(in_view(base.workspaces, view, base.crates[n - 1].transitive_rev_deps[d]));
        }
    }
}

/// Of open files with one path the last counts.
pub proof fn law_last_open_file_counts(files: Seq<OpenFileView>, o: int)
    requires
        0 <= o < files.len() <= usize::MAX,
    ensures
        opened(files).dom().finite(),
        opened(files).contains_key(files[o].path.key),
        o <= opened(files)[files[o].path.key] < files.len(),
        files[opened(files)[files[o].path.key] as int].path.key == files[o].path.key,
        (forall|q: int| o < q < files.len() ==> (#[trigger] files[q]).path.key != files[o].path.key) ==> opened(files)[files[o].path.key]
            == o,
    decreases files.len(),
{
    let rest = files.drop_last();
    let last = files.len() - 1;
    if o < last {
        law_last_open_file_counts(rest, o);
        if files[last].path.key != files[o].path.key {
            let q = opened(rest)[files[o].path.key] as int;
            assert(rest[q] == files[q]);
        }
        if (forall|q: int| o < q < files.len() ==> (#[trigger] files[q]).path.key != files[o].path.key) {
            assert(files[last].path.key != files[o].path.key);
            assert forall|q: int| o < q < rest.len() implies (#[trigger] rest[q]).path.key != rest[o].path.key by {
                assert(files[q].path.key != files[o].path.key);
            }
        }
    } else {
        lemma_opened(rest);
    }
}

proof fn lemma_opened(files: Seq<OpenFileView>)
    requires
        files.len() <= usize::MAX,
    ensures
        opened(files).dom().finite(),
        forall|k: Seq<char>|
            #[trigger] opened(files).contains_key(k) ==> opened(files)[k] < files.len() && files[opened(files)[k] as int].path.key == k
                && forall|q: int| opened(files)[k] < q < files.len() ==> (#[trigger] files[q]).path.key != k,
    decreases files.len(),
{
    if files.len() > 0 {
        let rest = files.drop_last();
        lemma_opened(rest);
        let m = opened(files);
        assert forall|k: Seq<char>| #[trigger] m.contains_key(k) implies m[k] < files.len() && files[m[k] as int].path.key == k
            && forall|q: int| m[k] < q < files.len() ==> (#[trigger] files[q]).path.key != k by {
            if k != files.last().path.key {
                assert(opened(rest).contains_key(k));
                assert(rest[m[k] as int] == files[m[k] as int]);
                assert forall|q: int| m[k] < q < files.len() implies (#[trigger] files[q]).path.key != k by {
                    if q < rest.len() {
                        assert(rest[q] == files[q]);
                    }
                }
            }
        }
    }
}

spec fn is_last(files: Seq<OpenFileView>, o: int) -> bool {
    forall|q: int| o < q < files.len() ==> (#[trigger] files[q]).path.key != files[o].path.key
}

proof fn lemma_required(base: BaseView, view: Seq<usize>, files: Seq<OpenFileView>, n: int, key: Seq<char>)
    requires
        base.readable(),
        files.len() <= usize::MAX,
        0 <= n <= sorted_keys::<String>(opened(files).dom()).len(),
    ensures
        files_required(base, view, files, n).contains_key(key) <==> exists|j: int|
            0 <= j < n && {
                let file = files[opened(files)[#[trigger] sorted_keys::<String>(opened(files).dom())[j]] as int];
                open_file_root(base, view, file) matches Some(root) && (key == file.path.key || depends_on_root(
                    base,
                    view,
                    root,
                    key,
                ))
            },
    decreases n,
{
    let keys = sorted_keys::<String>(opened(files).dom());
    if n > 0 {
        lemma_required(base, view, files, n - 1, key);
        let before = files_required(base, view, files, n - 1);
        let file = files[opened(files)[keys[n - 1]] as int];
        match open_file_root(base, view, file) {
            None => {},
            Some(root) => {
                let own = crate::overlay_files::or_insert(
                    before,
                    file.path.key,
                    RequiredView {
                        base_file: existing_file(base.workspaces, view, file.path.key),
                        base_source_root: root,
                        path: file.path.normalized(),
                    },
                );
                lemma_cone(own, base, view, root, base.crates.len() as int, key);
                assert(depends_to(base, view, root, key, base.crates.len() as int) == depends_on_root(base, view, root, key));
            },
        }
        if files_required(base, view, files, n).contains_key(key) {
            if before.contains_key(key) {
                let j = choose|j: int|
                    0 <= j < n - 1 && {
                        let file = files[opened(files)[#[trigger] keys[j]] as int];
                        open_file_root(base, view, file) matches Some(root) && (key == file.path.key || depends_on_root(
                            base,
                            view,
                            root,
                            key,
                        ))
                    };
                assert(keys[j] == keys[j]);
            } else {
                assert(keys[n - 1] == keys[n - 1]);
            }
        }
    }
}

/// A session's overlay needs exactly the files that it has open and has a source root for, and with
/// them every file of every crate in view that depends on a crate of such a source root.
pub proof fn law_overlay_needs_what_depends_on_open_files(base: BaseView, view: Seq<usize>, files: Seq<OpenFileView>, key: Seq<char>)
    requires
        base.readable(),
        files.len() <= usize::MAX,
    ensures
        all_required(base, view, files).contains_key(key) <==> exists|o: int|
            0 <= o < files.len() && (forall|q: int|
                o < q < files.len() ==> (#[trigger] files[q]).path.key != files[o].path.key) && (open_file_root(
                base,
                view,
                #[trigger] files[o],
            ) matches Some(root) && (key == files[o].path.key || depends_on_root(base, view, root, key))),
{
    let m = opened(files);
    let keys = sorted_keys::<String>(m.dom());
    lemma_opened(files);
    lemma_sorted_exists::<String>(m.dom());
    lemma_required(base, view, files, keys.len() as int, key);
    if all_required(base, view, files).contains_key(key) {
        let j = choose|j: int|
            0 <= j < keys.len() && {
                let file = files[m[#[trigger] keys[j]] as int];
                open_file_root(base, view, file) matches Some(root) && (key == file.path.key || depends_on_root(
                    base,
                    view,
                    root,
                    key,
                ))
            };
        assert(keys.to_set().contains(keys[j]));
        assert(m.contains_key(keys[j]));
        let o = m[keys[j]] as int;
        assert(is_last(files, o));
        assert(open_file_root(base, view, files[o]) is Some);
    }
    if exists|o: int|
        0 <= o < files.len() && is_last(files, o) && (open_file_root(base, view, #[trigger] files[o]) matches Some(root) && (key
            == files[o].path.key || depends_on_root(base, view, root, key))) {
        let o = choose|o: int|
            0 <= o < files.len() && is_last(files, o) && (open_file_root(base, view, #[trigger] files[o]) matches Some(root) && (key
                == files[o].path.key || depends_on_root(base, view, root, key)));
        law_last_open_file_counts(files, o);
        let k = files[o].path.key;
        assert(m.contains_key(k) && m[k] == o);
        assert(keys.to_set().contains(k));
        let j = keys.index_of(k);
        assert(keys[j] == k);
    }
}

/// A file of the overlay shows the open text where it is open, and otherwise what is on disk. One that
/// is neither open nor on disk is left out.
pub proof fn law_overlay_files_show_the_editor_or_the_disk(
    base: BaseView,
    view: Seq<usize>,
    files: Seq<OpenFileView>,
    key: Seq<char>,
    required: RequiredView,
)
    requires
        files.len() <= usize::MAX,
    ensures
        ({
            let made = prepared_file(base, view, files, key, required);
            &&& forall|o: int|
                0 <= o < files.len() && (#[trigger] files[o]).path.key == key && (forall|q: int|
                    o < q < files.len() ==> (#[trigger] files[q]).path.key != key) ==> (made matches Some(file) && file.is_open
                    && file.text == files[o].text && file.line_endings == files[o].line_endings && file.display_path
                    == files[o].path)
            &&& (forall|o: int| 0 <= o < files.len() ==> (#[trigger] files[o]).path.key != key) ==> {
                &&& made is Some <==> required.base_file is Some
                &&& required.base_file matches Some(f) ==> (made matches Some(file) && !file.is_open && file.text
                    == base.inputs.texts[f] && file.display_path == required.path)
            }
            &&& made matches Some(file) ==> file.base_file == required.base_file && file.base_source_root
                == required.base_source_root && file.path == required.path
        }),
{
    lemma_opened(files);
    if opened(files).contains_key(key) {
        let o = opened(files)[key] as int;
        assert(files[o].path.key == key);
        assert forall|p: int|
            0 <= p < files.len() && (#[trigger] files[p]).path.key == key && (forall|q: int|
                p < q < files.len() ==> (#[trigger] files[q]).path.key != key) implies p == o by {
            assert(files[o].path.key == key);
        }
    } else {
        assert forall|o: int| 0 <= o < files.len() implies (#[trigger] files[o]).path.key != key by {
            if files[o].path.key == key {
                law_last_open_file_counts(files, o);
            }
        }
    }
}

/// The crates that an overlay covers are those whose root file lies under a path that the overlay holds,
/// each with the overlay's file for that path. Of crates with one number the last that is covered counts.
pub proof fn law_overlay_covers_crates_with_their_root(base: BaseView, overlay: OverlayView, n: int, id: u32)
    requires
        0 <= n <= base.crates.len(),
        overlay.crates == Map::<u32, u32>::empty(),
    ensures
        ({
            let covered = |c: int|
                {
                    let file = base.crates[c].root_file;
                    let root = base.inputs.roots[base.inputs.file_roots[file] as int];
                    base.crates[c].id == id && root.files.contains_key(file) && overlay.files.contains_key(root.files[file].key)
                };
            let found = overlaid_crates(base, overlay, n);
            &&& found.contains_key(id) <==> exists|c: int| 0 <= c < n && #[trigger] covered(c)
            &&& forall|c: int|
                0 <= c < n && #[trigger] covered(c) && (forall|e: int| c < e < n ==> !#[trigger] covered(e)) ==> found[id]
                    == overlay.files[base.inputs.roots[base.inputs.file_roots[base.crates[c].root_file] as int].files[base.crates[c].root_file].key].overlay_file
        }),
    decreases n,
{
    if n > 0 {
        law_overlay_covers_crates_with_their_root(base, overlay, n - 1, id);
        let covered = |c: int|
            {
                let file = base.crates[c].root_file;
                let root = base.inputs.roots[base.inputs.file_roots[file] as int];
                base.crates[c].id == id && root.files.contains_key(file) && overlay.files.contains_key(root.files[file].key)
            };
        let before = overlaid_crates(base, overlay, n - 1);
        let found = overlaid_crates(base, overlay, n);
        if covered(n - 1) {
            assert(found.contains_key(id));
        } else {
            assert(found.contains_key(id) == before.contains_key(id));
            if before.contains_key(id) {
                assert(found[id] == before[id]);
                let c = choose|c: int| 0 <= c < n - 1 && #[trigger] covered(c);
                assert(covered(c));
            }
        }
    }
}

/// No overlay is needed exactly when every open file is on disk with the same text and line endings.
pub proof fn law_saved_files_need_no_overlay(base: BaseView, view: Seq<usize>, files: Seq<PreparedView>)
    ensures
        !overlay_needed(base, view, files) <==> forall|i: int|
            0 <= i < files.len() && (#[trigger] files[i]).is_open ==> (files[i].base_file matches Some(f) && base.inputs.texts[f]
                == files[i].text && crate::base::base_line_endings(base.workspaces, view, f) == Some(files[i].line_endings)),
{
    if !overlay_needed(base, view, files) {
        assert forall|i: int| 0 <= i < files.len() && (#[trigger] files[i]).is_open implies (files[i].base_file matches Some(f)
            && base.inputs.texts[f] == files[i].text && crate::base::base_line_endings(base.workspaces, view, f) == Some(
            files[i].line_endings,
        )) by {
            assert(!crate::overlay::shows_other(base, view, files[i]));
        }
    }
}

/// An overlay counts as unchanged only if it shows every file as it is to be shown: with its text, line
/// endings, paths and source root, and as open exactly if it is. Where none is needed it is empty.
pub proof fn law_unchanged_overlay_shows_the_files(
    base: BaseView,
    view: Seq<usize>,
    overlay: Option<OverlayView>,
    files: Seq<PreparedView>,
    i: int,
)
    requires
        !overlay_changed(base, view, overlay, files),
        0 <= i < files.len(),
    ensures
        overlay_needed(base, view, files) ==> (overlay matches Some(o) && {
            let key = files[i].path.key;
            &&& o.files.contains_key(key)
            &&& o.files[key].text == files[i].text && o.files[key].line_endings == files[i].line_endings
            &&& o.files[key].path == files[i].path && o.files[key].display_path == files[i].display_path
            &&& o.files[key].base_source_root == files[i].base_source_root
            &&& o.open_files.contains_key(key) == files[i].is_open
            &&& files[i].is_open ==> o.open_files[key] == files[i].text
        }),
        !overlay_needed(base, view, files) && overlay is Some ==> overlay->0.files.dom().len() == 0,
{
    if overlay_needed(base, view, files) {
        assert(!crate::overlay::entry_differs(overlay->0, files[i]));
    }
}

proof fn lemma_still_applied(applied: Set<u32>, old: OverlayView, files: Seq<PreparedView>, n: int, f: u32)
    requires
        0 <= n <= sorted_keys::<String>(by_path(files).dom()).len(),
    ensures
        still_applied_to(applied, old, files, n).contains(f) <==> applied.contains(f) && forall|j: int|
            0 <= j < n ==> {
                let key = #[trigger] sorted_keys::<String>(by_path(files).dom())[j];
                !(old.files.contains_key(key) && old.files[key].overlay_file == f && old.files[key].text
                    != files[by_path(files)[key] as int].text)
            },
    decreases n,
{
    if n > 0 {
        lemma_still_applied(applied, old, files, n - 1, f);
        let keys = sorted_keys::<String>(by_path(files).dom());
        let key = keys[n - 1];
        assert(still_applied_to(applied, old, files, n).contains(f) <==> still_applied_to(applied, old, files, n - 1).contains(f)
            && !(old.files.contains_key(key) && old.files[key].overlay_file == f && old.files[key].text
            != files[by_path(files)[key] as int].text));
    }
}

/// The database has to be told a file's text again exactly when the overlay shows another text under its
/// path now: what it was told of other files still stands.
pub proof fn law_only_new_texts_are_told_again(applied: Set<u32>, old: OverlayView, files: Seq<PreparedView>, f: u32)
    ensures
        still_applied(applied, old, files).contains(f) <==> applied.contains(f) && forall|key: Seq<char>|
            #[trigger] by_path(files).contains_key(key) && old.files.contains_key(key) && old.files[key].overlay_file == f
                ==> old.files[key].text == files[by_path(files)[key] as int].text,
{
    let m = by_path(files);
    let keys = sorted_keys::<String>(m.dom());
    crate::overlay_build::lemma_by_path(files);
    lemma_sorted_exists::<String>(m.dom());
    lemma_still_applied(applied, old, files, keys.len() as int, f);
    if still_applied(applied, old, files).contains(f) {
        assert forall|key: Seq<char>|
            #[trigger] m.contains_key(key) && old.files.contains_key(key) && old.files[key].overlay_file == f implies old.files[key].text
            == files[m[key] as int].text by {
            assert(keys.to_set().contains(key));
            let j = keys.index_of(key);
            assert(keys[j] == key);
        }
    } else if applied.contains(f) {
        let j = choose|j: int|
            0 <= j < keys.len() && {
                let key = #[trigger] keys[j];
                old.files.contains_key(key) && old.files[key].overlay_file == f && old.files[key].text != files[m[key] as int].text
            };
        assert(keys.to_set().contains(keys[j]));
        assert(m.contains_key(keys[j]));
    }
}

proof fn lemma_dropped(old: OverlayView, kept: Set<Seq<char>>, n: int, f: u32)
    requires
        0 <= n <= sorted_keys::<String>(old.files.dom()).len(),
    ensures
        dropped(old, kept, n).contains(f) <==> exists|j: int|
            0 <= j < n && !kept.contains(#[trigger] sorted_keys::<String>(old.files.dom())[j]) && old.files[sorted_keys::<String>(
                old.files.dom(),
            )[j]].overlay_file == f,
    decreases n,
{
    let keys = sorted_keys::<String>(old.files.dom());
    if n > 0 {
        lemma_dropped(old, kept, n - 1, f);
        let before = dropped(old, kept, n - 1);
        let after = dropped(old, kept, n);
        if before.contains(f) {
            let j = before.index_of(f);
            assert(after[j] == f);
            let i = choose|i: int| 0 <= i < n - 1 && !kept.contains(#[trigger] keys[i]) && old.files[keys[i]].overlay_file == f;
            assert(!kept.contains(keys[i]));
        }
        if !kept.contains(keys[n - 1]) && old.files[keys[n - 1]].overlay_file == f {
            assert(after[before.len() as int] == f);
        }
        if after.contains(f) {
            let j = after.index_of(f);
            if j < before.len() {
                assert(before[j] == f);
            } else {
                assert(!kept.contains(keys[n - 1]));
            }
        }
        if exists|i: int| 0 <= i < n && !kept.contains(#[trigger] keys[i]) && old.files[keys[i]].overlay_file == f {
            let i = choose|i: int| 0 <= i < n && !kept.contains(#[trigger] keys[i]) && old.files[keys[i]].overlay_file == f;
            if i < n - 1 {
                assert(!kept.contains(keys[i]));
                assert(before.contains(f));
            }
        }
    }
}

/// The files that leave an overlay are exactly those under paths that the new one does not hold.
pub proof fn law_files_without_a_place_are_dropped(old: OverlayView, files: Seq<PreparedView>, f: u32)
    requires
        old.files.dom().finite(),
    ensures
        all_dropped(old, files).contains(f) <==> exists|key: Seq<char>|
            #[trigger] old.files.contains_key(key) && old.files[key].overlay_file == f && forall|i: int|
                0 <= i < files.len() ==> (#[trigger] files[i]).path.key != key,
{
    let keys = sorted_keys::<String>(old.files.dom());
    let kept = by_path(files).dom();
    lemma_sorted_exists::<String>(old.files.dom());
    lemma_dropped(old, kept, keys.len() as int, f);
    if all_dropped(old, files).contains(f) {
        let j = choose|j: int| 0 <= j < keys.len() && !kept.contains(#[trigger] keys[j]) && old.files[keys[j]].overlay_file == f;
        assert(keys.to_set().contains(keys[j]));
        lemma_in_by_path(files, keys[j]);
        assert(old.files.contains_key(keys[j]));
    }
    if exists|key: Seq<char>|
        #[trigger] old.files.contains_key(key) && old.files[key].overlay_file == f && forall|i: int|
            0 <= i < files.len() ==> (#[trigger] files[i]).path.key != key {
        let key = choose|key: Seq<char>|
            #[trigger] old.files.contains_key(key) && old.files[key].overlay_file == f && forall|i: int|
                0 <= i < files.len() ==> (#[trigger] files[i]).path.key != key;
        assert(keys.to_set().contains(key));
        lemma_in_by_path(files, key);
        let j = keys.index_of(key);
        assert(!kept.contains(keys[j]));
    }
}

proof fn lemma_in_by_path(files: Seq<PreparedView>, key: Seq<char>)
    ensures
        by_path(files).contains_key(key) <==> exists|i: int| 0 <= i < files.len() && (#[trigger] files[i]).path.key == key,
    decreases files.len(),
{
    if files.len() > 0 {
        let rest = files.drop_last();
        lemma_in_by_path(rest, key);
        if files.last().path.key == key {
            assert(files[files.len() - 1].path.key == key);
        }
        if by_path(rest).contains_key(key) {
            let i = choose|i: int| 0 <= i < rest.len() && (#[trigger] rest[i]).path.key == key;
            assert(files[i].path.key == key);
        }
        if exists|i: int| 0 <= i < files.len() && (#[trigger] files[i]).path.key == key {
            let i = choose|i: int| 0 <= i < files.len() && (#[trigger] files[i]).path.key == key;
            if i < rest.len() {
                assert(rest[i].path.key == key);
            }
        }
    }
}

/// How much of a path a file of a workspace shares with it.
pub open spec fn shares(lw: LoadedView, f: u32, key: Seq<char>) -> int {
    common_path(encode_utf8(key), encode_utf8(lw.files.by_id[f].path.key)) as int
}

/// The file exists in the workspace and lies in a source root of the kind that the workspace's
/// configuration takes the path to be of.
pub open spec fn speaks_for(base: BaseView, lw: LoadedView, is_library: bool, f: u32) -> bool {
    &&& lw.files.by_id.contains_key(f)
    &&& lw.files.by_id[f].exists
    &&& base.inputs.roots[base.inputs.file_roots[f] as int].is_library == is_library
}

/// The length of every path fits.
pub open spec fn paths_fit(ws: Seq<LoadedView>) -> bool {
    forall|i: int, f: u32|
        0 <= i < ws.len() && #[trigger] ws[i].files.by_id.contains_key(f) ==> encode_utf8(ws[i].files.by_id[f].path.key).len()
            <= usize::MAX
}

spec fn of_file(base: BaseView, lw: LoadedView, f: u32, key: Seq<char>, b: BestRoot) -> bool {
    b.shared == shares(lw, f, key) && b.root == base.inputs.file_roots[f] && b.is_library
        == base.inputs.roots[base.inputs.file_roots[f] as int].is_library
}

proof fn lemma_best_file(best: Option<BestRoot>, base: BaseView, i: int, is_library: bool, key: Seq<char>, n: int)
    requires
        0 <= i < base.workspaces.len(),
        paths_fit(base.workspaces),
        base.workspaces[i].files.by_id.dom().finite(),
        0 <= n <= sorted_keys::<u32>(base.workspaces[i].files.by_id.dom()).len(),
        best matches Some(b) ==> b.shared > 0,
    ensures
        ({
            let lw = base.workspaces[i];
            let keys = sorted_keys::<u32>(lw.files.by_id.dom());
            match best_of_files(best, base.inputs, lw.files, is_library, key, n) {
                None => best is None && forall|j: int|
                    0 <= j < n && speaks_for(base, lw, is_library, #[trigger] keys[j]) ==> shares(lw, keys[j], key) <= 0,
                Some(b) => {
                    &&& b.shared > 0
                    &&& best == Some(b) || exists|j: int|
                        0 <= j < n && speaks_for(base, lw, is_library, #[trigger] keys[j]) && of_file(base, lw, keys[j], key, b)
                    &&& best matches Some(was) ==> was.shared <= b.shared
                    &&& forall|j: int|
                        0 <= j < n && speaks_for(base, lw, is_library, #[trigger] keys[j]) ==> shares(lw, keys[j], key) <= b.shared
                },
            }
        }),
    decreases n,
{
    let lw = base.workspaces[i];
    let keys = sorted_keys::<u32>(lw.files.by_id.dom());
    if n > 0 {
        lemma_best_file(best, base, i, is_library, key, n - 1);
        let before = best_of_files(best, base.inputs, lw.files, is_library, key, n - 1);
        let after = best_of_files(best, base.inputs, lw.files, is_library, key, n);
        let f = keys[n - 1];
        lemma_sorted_exists::<u32>(lw.files.by_id.dom());
        assert(keys.to_set().contains(f));
        assert(base.workspaces[i].files.by_id.contains_key(f));
        law_common_path_is_symmetric(encode_utf8(key), encode_utf8(lw.files.by_id[f].path.key));
        match after {
            Some(b) => {
                if before == after {
                    if best != Some(b) {
                        let j = choose|j: int|
                            0 <= j < n - 1 && speaks_for(base, lw, is_library, #[trigger] keys[j]) && of_file(
                                base,
                                lw,
                                keys[j],
                                key,
                                b,
                            );
                        assert(speaks_for(base, lw, is_library, keys[j]));
                    }
                } else {
                    assert(speaks_for(base, lw, is_library, keys[n - 1]) && of_file(base, lw, keys[n - 1], key, b));
                }
            },
            None => {},
        }
    }
}

spec fn candidate(base: BaseView, view: Seq<usize>, classified: Seq<Option<bool>>, p: int, f: u32) -> bool {
    view[p] < base.workspaces.len() && (classified[view[p] as int] matches Some(is_library) && speaks_for(
        base,
        base.workspaces[view[p] as int],
        is_library,
        f,
    ))
}

proof fn lemma_best_workspace(base: BaseView, view: Seq<usize>, classified: Seq<Option<bool>>, key: Seq<char>, n: int)
    requires
        paths_fit(base.workspaces),
        forall|i: int| 0 <= i < base.workspaces.len() ==> (#[trigger] base.workspaces[i]).files.by_id.dom().finite(),
        0 <= n <= view.len(),
    ensures
        match best_of_workspaces(base, view, classified, key, n) {
            None => forall|p: int, f: u32|
                0 <= p < n && #[trigger] candidate(base, view, classified, p, f) ==> shares(
                    base.workspaces[view[p] as int],
                    f,
                    key,
                ) <= 0,
            Some(b) => {
                &&& b.shared > 0
                &&& exists|p: int, f: u32|
                    0 <= p < n && #[trigger] candidate(base, view, classified, p, f) && of_file(
                        base,
                        base.workspaces[view[p] as int],
                        f,
                        key,
                        b,
                    )
                &&& forall|p: int, f: u32|
                    0 <= p < n && #[trigger] candidate(base, view, classified, p, f) ==> shares(
                        base.workspaces[view[p] as int],
                        f,
                        key,
                    ) <= b.shared
            },
        },
    decreases n,
{
    if n > 0 {
        lemma_best_workspace(base, view, classified, key, n - 1);
        let before = best_of_workspaces(base, view, classified, key, n - 1);
        let after = best_of_workspaces(base, view, classified, key, n);
        let i = view[n - 1] as int;
        if i < base.workspaces.len() && classified[i] is Some {
            let lw = base.workspaces[i];
            let is_library = classified[i]->0;
            let keys = sorted_keys::<u32>(lw.files.by_id.dom());
            lemma_sorted_exists::<u32>(lw.files.by_id.dom());
            lemma_best_file(before, base, i, is_library, key, keys.len() as int);
            assert forall|f: u32| #[trigger] candidate(base, view, classified, n - 1, f) implies (match after {
                None => shares(lw, f, key) <= 0,
                Some(b) => shares(lw, f, key) <= b.shared,
            }) by {
                assert(keys.to_set().contains(f));
                let j = keys.index_of(f);
                assert(speaks_for(base, lw, is_library, keys[j]));
            }
            match after {
                Some(b) => {
                    if before == after {
                        let (p, f) = choose|p: int, f: u32|
                            0 <= p < n - 1 && #[trigger] candidate(base, view, classified, p, f) && of_file(
                                base,
                                base.workspaces[view[p] as int],
                                f,
                                key,
                                b,
                            );
                        assert(candidate(base, view, classified, p, f));
                    } else {
                        let j = choose|j: int|
                            0 <= j < keys.len() && speaks_for(base, lw, is_library, #[trigger] keys[j]) && of_file(
                                base,
                                lw,
                                keys[j],
                                key,
                                b,
                            );
                        assert(candidate(base, view, classified, n - 1, keys[j]));
                    }
                },
                None => {},
            }
        } else {
            match after {
                Some(b) => {
                    let (p, f) = choose|p: int, f: u32|
                        0 <= p < n - 1 && #[trigger] candidate(base, view, classified, p, f) && of_file(
                            base,
                            base.workspaces[view[p] as int],
                            f,
                            key,
                            b,
                        );
                    assert(candidate(base, view, classified, p, f));
                },
                None => {},
            }
        }
    }
}

/// A path that is on disk belongs to the source root of its file. Another belongs to the source root of
/// the existing file that shares most of the path, among the workspaces in view whose configuration
/// covers it and in roots of the kind it is covered as; where no such file shares anything of the path,
/// it has no source root.
pub proof fn law_nearest_file_gives_the_root(base: BaseView, view: Seq<usize>, key: Seq<char>, classified: Seq<Option<bool>>)
    requires
        paths_fit(base.workspaces),
        forall|i: int| 0 <= i < base.workspaces.len() ==> (#[trigger] base.workspaces[i]).files.by_id.dom().finite(),
    ensures
        existing_file(base.workspaces, view, key) matches Some(f) ==> (source_root_for_path(base, view, key, classified) matches Some(
            (root, is_library),
        ) && root == base.inputs.file_roots[f] && is_library == base.inputs.roots[root as int].is_library),
        existing_file(base.workspaces, view, key) is None ==> match source_root_for_path(base, view, key, classified) {
            None => forall|p: int, f: u32|
                0 <= p < view.len() && view[p] < base.workspaces.len() && classified[view[p] as int] is Some && speaks_for(
                    base,
                    base.workspaces[view[p] as int],
                    classified[view[p] as int]->0,
                    f,
                ) ==> #[trigger] shares(base.workspaces[view[p] as int], f, key) <= 0,
            Some((root, is_library)) => exists|p: int, f: u32|
                {
                    &&& 0 <= p < view.len() && view[p] < base.workspaces.len()
                    &&& classified[view[p] as int] == Some(is_library) && speaks_for(
                        base,
                        base.workspaces[view[p] as int],
                        is_library,
                        f,
                    )
                    &&& root == base.inputs.file_roots[f]
                    &&& #[trigger] shares(base.workspaces[view[p] as int], f, key) > 0
                    &&& forall|q: int, g: u32|
                        0 <= q < view.len() && view[q] < base.workspaces.len() && classified[view[q] as int] is Some && speaks_for(
                            base,
                            base.workspaces[view[q] as int],
                            classified[view[q] as int]->0,
                            g,
                        ) ==> #[trigger] shares(base.workspaces[view[q] as int], g, key) <= shares(
                            base.workspaces[view[p] as int],
                            f,
                            key,
                        )
                },
        },
{
    let n = view.len() as int;
    lemma_best_workspace(base, view, classified, key, n);
    if existing_file(base.workspaces, view, key) is None {
        match best_of_workspaces(base, view, classified, key, n) {
            None => {
                assert forall|p: int, f: u32|
                    0 <= p < view.len() && view[p] < base.workspaces.len() && classified[view[p] as int] is Some && speaks_for(
                        base,
                        base.workspaces[view[p] as int],
                        classified[view[p] as int]->0,
                        f,
                    ) implies #[trigger] shares(base.workspaces[view[p] as int], f, key) <= 0 by {
                    assert(candidate(base, view, classified, p, f));
                }
            },
            Some(b) => {
                let (p, f) = choose|p: int, f: u32|
                    0 <= p < n && #[trigger] candidate(base, view, classified, p, f) && of_file(
                        base,
                        base.workspaces[view[p] as int],
                        f,
                        key,
                        b,
                    );
                assert(shares(base.workspaces[view[p] as int], f, key) > 0);
                assert forall|q: int, g: u32|
                    0 <= q < view.len() && view[q] < base.workspaces.len() && classified[view[q] as int] is Some && speaks_for(
                        base,
                        base.workspaces[view[q] as int],
                        classified[view[q] as int]->0,
                        g,
                    ) implies #[trigger] shares(base.workspaces[view[q] as int], g, key) <= shares(
                    base.workspaces[view[p] as int],
                    f,
                    key,
                ) by {
                    assert(candidate(base, view, classified, q, g));
                }
            },
        }
    }
}

} // verus!
