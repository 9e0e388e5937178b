//! Bringing the database up to date with the overlays.
use crate::file_ids::SharedFileIds;
use crate::fx::{fx_contains, fx_insert, fx_remove};
use crate::graph::{graph_edges, graph_nodes, overlay_crate_graph, CrateGraph};
use crate::inputs::{
    assigned, lemma_with_roots, lemma_with_texts, moved, root_changed, root_views, RootChange, RootView, SourceRoot,
};
use crate::ordered::{lemma_ascending_distinct, lemma_sorted_exists, lemma_sorted_keys, listed, sorted_keys};
use crate::overlay::{overlaid_roots, overlay_root, ActiveSessionOverlay, OverlayView};
use crate::world::{
    applied_sound, lemma_listed_merged, listed_under, overlay_roots_known, overlays_sound, roots_listed, SharedWorld, WorldView,
};
use rustc_hash::FxHashSet;
use vstd::prelude::*;

verus! {

/// What the database is to be told: the crate graph, the source roots, the texts of files.
#[derive(Debug)]
pub struct InputChange {
    pub graph: CrateGraph,
    pub roots: RootChange,
    pub texts: Vec<(u32, Option<String>)>,
}

/// The source roots of one overlay, one for each root on disk that has files in it.
pub open spec fn overlay_roots_to(overlay: OverlayView, roots: Seq<RootView>, n: int) -> Seq<RootView>
    decreases n,
{
    if n <= 0 {
        Seq::empty()
    } else {
        let id = sorted_keys::<u32>(overlaid_roots(overlay))[n - 1];
        overlay_roots_to(overlay, roots, n - 1).push(overlay_root(overlay, id, roots[id as int].is_library))
    }
}

pub open spec fn overlay_roots(overlay: OverlayView, roots: Seq<RootView>) -> Seq<RootView> {
    overlay_roots_to(overlay, roots, sorted_keys::<u32>(overlaid_roots(overlay)).len() as int)
}

/// The source roots of the overlays of the first `n` sessions.
pub open spec fn session_roots_to(overlays: Map<u64, OverlayView>, roots: Seq<RootView>, n: int) -> Seq<RootView>
    decreases n,
{
    if n <= 0 {
        Seq::empty()
    } else {
        session_roots_to(overlays, roots, n - 1) + overlay_roots(overlays[sorted_keys::<u64>(overlays.dom())[n - 1]], roots)
    }
}

pub open spec fn session_roots(overlays: Map<u64, OverlayView>, roots: Seq<RootView>) -> Seq<RootView> {
    session_roots_to(overlays, roots, sorted_keys::<u64>(overlays.dom()).len() as int)
}

/// The source roots on disk.
pub open spec fn disk_roots(w: WorldView) -> Seq<RootView> {
    match w.max_root {
        Some(max) => w.base.inputs.roots.take(max + 1),
        None => Seq::empty(),
    }
}

/// The source roots on disk, and behind them those of the sessions' overlays.
pub open spec fn all_roots(w: WorldView) -> Seq<RootView> {
    disk_roots(w) + session_roots(w.overlays, w.base.inputs.roots)
}

/// The texts of those of an overlay's first `n` files, by path, that the database lacks.
pub open spec fn missing_to(overlay: OverlayView, applied: Set<u32>, n: int) -> Seq<(u32, Option<Seq<char>>)>
    decreases n,
{
    if n <= 0 {
        Seq::empty()
    } else {
        let before = missing_to(overlay, applied, n - 1);
        let file = overlay.files[sorted_keys::<String>(overlay.files.dom())[n - 1]];
        if applied.contains(file.overlay_file) {
            before
        } else {
            before.push((file.overlay_file, Some(file.text)))
        }
    }
}

pub open spec fn missing(overlay: OverlayView, applied: Set<u32>) -> Seq<(u32, Option<Seq<char>>)> {
    missing_to(overlay, applied, sorted_keys::<String>(overlay.files.dom()).len() as int)
}

/// The texts that the database lacks, of the first `n` sessions.
pub open spec fn all_missing_to(overlays: Map<u64, OverlayView>, applied: Set<u32>, n: int) -> Seq<(u32, Option<Seq<char>>)>
    decreases n,
{
    if n <= 0 {
        Seq::empty()
    } else {
        all_missing_to(overlays, applied, n - 1) + missing(overlays[sorted_keys::<u64>(overlays.dom())[n - 1]], applied)
    }
}

pub open spec fn all_missing(overlays: Map<u64, OverlayView>, applied: Set<u32>) -> Seq<(u32, Option<Seq<char>>)> {
    all_missing_to(overlays, applied, sorted_keys::<u64>(overlays.dom()).len() as int)
}

pub open spec fn without_files(set: Set<u32>, files: Seq<u32>) -> Set<u32>
    decreases files.len(),
{
    if files.len() == 0 {
        set
    } else {
        without_files(set, files.drop_last()).remove(files.last())
    }
}

pub open spec fn with_files(set: Set<u32>, changes: Seq<(u32, Option<Seq<char>>)>) -> Set<u32>
    decreases changes.len(),
{
    if changes.len() == 0 {
        set
    } else {
        with_files(set, changes.drop_last()).insert(changes.last().0)
    }
}

pub open spec fn removals(files: Seq<u32>) -> Seq<(u32, Option<Seq<char>>)> {
    files.map_values(|f: u32| (f, None::<Seq<char>>))
}

/// What the database is told of files: those that are gone, and the texts it lacks.
pub open spec fn text_changes(w: WorldView, removed: Seq<u32>) -> Seq<(u32, Option<Seq<char>>)> {
    removals(removed) + all_missing(w.overlays, without_files(w.applied, removed))
}

/// The world once the database is up to date with the overlays.
pub open spec fn rebuilt(w: WorldView, removed: Seq<u32>) -> WorldView {
    WorldView {
        base: crate::base::BaseView {
            inputs: w.base.inputs.with_roots(all_roots(w)).with_texts(text_changes(w, removed)),
            ..w.base
        },
        applied: with_files(
            without_files(w.applied, removed),
            all_missing(w.overlays, without_files(w.applied, removed)),
        ),
        ..w
    }
}

/// What the database is told when it is brought up to date.
pub open spec fn is_change(c: InputChange, w: WorldView, removed: Seq<u32>) -> bool {
    &&& c.graph.nodes@ == graph_nodes(w.base.crates, w.overlays)
    &&& c.graph.edges@ == graph_edges(w.base.crates, c.graph.nodes@, c.graph.nodes@.len() as int)
    &&& c.texts.deep_view() == text_changes(w, removed)
    &&& c.roots.describes(w.base.inputs, all_roots(w))
}

proof fn lemma_overlay_roots_to(overlay: OverlayView, roots: Seq<RootView>, n: int)
    requires
        overlay.wf(),
        overlay.files.dom().finite(),
        0 <= n <= sorted_keys::<u32>(overlaid_roots(overlay)).len(),
    ensures
        overlay_roots_to(overlay, roots, n).len() == n,
        forall|i: int|
            0 <= i < n ==> #[trigger] overlay_roots_to(overlay, roots, n)[i] == overlay_root(
                overlay,
                sorted_keys::<u32>(overlaid_roots(overlay))[i],
                roots[sorted_keys::<u32>(overlaid_roots(overlay))[i] as int].is_library,
            ),
    decreases n,
{
    if n > 0 {
        lemma_overlay_roots_to(overlay, roots, n - 1);
    }
}

/// The overlaid source roots of a finite overlay can be listed.
pub proof fn lemma_overlaid_roots_finite(overlay: OverlayView)
    requires
        overlay.files.dom().finite(),
    ensures
        overlaid_roots(overlay).finite(),
{
    let image = overlay.files.dom().map(|k: Seq<char>| overlay.files[k].base_source_root);
    overlay.files.dom().lemma_map_finite(|k: Seq<char>| overlay.files[k].base_source_root);
    assert(overlaid_roots(overlay) =~= image) by {
        assert forall|r: u32| overlaid_roots(overlay).contains(r) <==> image.contains(r) by {
            if overlaid_roots(overlay).contains(r) {
                let k = choose|k: Seq<char>| #[trigger] overlay.files.contains_key(k) && overlay.files[k].base_source_root == r;
                assert(overlay.files.dom().contains(k));
            }
        }
    }
}

spec fn inhabited(root: RootView) -> bool {
    exists|f: u32| #[trigger] root.files.contains_key(f)
}

/// Each source root of an overlay has a file of the overlay, and no two of them share one.
proof fn lemma_overlay_roots(overlay: OverlayView, roots: Seq<RootView>)
    requires
        overlay.wf(),
        overlay.files.dom().finite(),
        overlay.path_by_file.dom().finite(),
    ensures
        ({
            let r = overlay_roots(overlay, roots);
            &&& forall|i: int| 0 <= i < r.len() ==> inhabited(#[trigger] r[i])
            &&& forall|i: int, f: u32|
                0 <= i < r.len() && #[trigger] r[i].files.contains_key(f) ==> overlay.path_by_file.contains_key(f)
            &&& forall|i: int, j: int, f: u32|
                0 <= i < j < r.len() && #[trigger] r[i].files.contains_key(f) ==> !#[trigger] r[j].files.contains_key(f)
            &&& forall|i: int| 0 <= i < r.len() ==> (#[trigger] r[i]).files.dom().finite()
        }),
{
    let ids = sorted_keys::<u32>(overlaid_roots(overlay));
    let n = ids.len() as int;
    let r = overlay_roots(overlay, roots);
    lemma_overlaid_roots_finite(overlay);
    lemma_sorted_exists::<u32>(overlaid_roots(overlay));
    lemma_ascending_distinct::<u32>(ids);
    lemma_overlay_roots_to(overlay, roots, n);
    assert forall|i: int| 0 <= i < r.len() implies inhabited(#[trigger] r[i]) by {
        assert(ids.to_set().contains(ids[i]));
        let k = choose|k: Seq<char>| #[trigger] overlay.files.contains_key(k) && overlay.files[k].base_source_root == ids[i];
        assert(overlay.path_by_file.contains_key(overlay.files[k].overlay_file));
        assert(r[i].files.contains_key(overlay.files[k].overlay_file));
    }
    assert forall|i: int, j: int, f: u32|
        0 <= i < j < r.len() && #[trigger] r[i].files.contains_key(f) implies !#[trigger] r[j].files.contains_key(f) by {
        assert(ids[i] != ids[j]);
    }
    assert forall|i: int| 0 <= i < r.len() implies (#[trigger] r[i]).files.dom().finite() by {
        assert(r[i].files.dom().subset_of(overlay.path_by_file.dom()));
        vstd::set_lib::lemma_len_subset(r[i].files.dom(), overlay.path_by_file.dom());
    }
}

spec fn in_first(overlays: Map<u64, OverlayView>, n: int, f: u32) -> bool {
    exists|m: int| 0 <= m < n && overlays[#[trigger] sorted_keys::<u64>(overlays.dom())[m]].path_by_file.contains_key(f)
}

/// Each source root of the overlays has a file, and no two of them share one.
proof fn lemma_session_roots(overlays: Map<u64, OverlayView>, next: u32, roots: Seq<RootView>, n: int)
    requires
        overlays_sound(overlays, next),
        0 <= n <= sorted_keys::<u64>(overlays.dom()).len(),
    ensures
        ({
            let r = session_roots_to(overlays, roots, n);
            &&& forall|i: int| 0 <= i < r.len() ==> inhabited(#[trigger] r[i])
            &&& forall|i: int, f: u32| 0 <= i < r.len() && #[trigger] r[i].files.contains_key(f) ==> in_first(overlays, n, f)
            &&& forall|i: int, j: int, f: u32|
                0 <= i < j < r.len() && #[trigger] r[i].files.contains_key(f) ==> !#[trigger] r[j].files.contains_key(f)
            &&& forall|i: int| 0 <= i < r.len() ==> (#[trigger] r[i]).files.dom().finite()
        }),
    decreases n,
{
    if n > 0 {
        lemma_session_roots(overlays, next, roots, n - 1);
        let sessions = sorted_keys::<u64>(overlays.dom());
        lemma_sorted_exists::<u64>(overlays.dom());
        lemma_ascending_distinct::<u64>(sessions);
        let session = sessions[n - 1];
        assert(sessions.to_set().contains(session));
        let a = session_roots_to(overlays, roots, n - 1);
        let b = overlay_roots(overlays[session], roots);
        let r = session_roots_to(overlays, roots, n);
        lemma_overlay_roots(overlays[session], roots);
        assert forall|i: int| 0 <= i < r.len() implies inhabited(#[trigger] r[i]) by {
            if i < a.len() {
                assert(inhabited(a[i]));
                let f = choose|f: u32| #[trigger] a[i].files.contains_key(f);
                assert(r[i].files.contains_key(f));
            } else {
                assert(inhabited(b[i - a.len()]));
                let f = choose|f: u32| #[trigger] b[i - a.len()].files.contains_key(f);
                assert(r[i].files.contains_key(f));
            }
        }
        assert forall|i: int, f: u32| 0 <= i < r.len() && #[trigger] r[i].files.contains_key(f) implies in_first(overlays, n, f) by {
            if i < a.len() {
                assert(a[i].files.contains_key(f));
                let m = choose|m: int| 0 <= m < n - 1 && overlays[#[trigger] sessions[m]].path_by_file.contains_key(f);
                assert(overlays[sessions[m]].path_by_file.contains_key(f));
            } else {
                assert(b[i - a.len()].files.contains_key(f));
                assert(overlays[sessions[n - 1]].path_by_file.contains_key(f));
            }
        }
        assert forall|i: int, j: int, f: u32|
            0 <= i < j < r.len() && #[trigger] r[i].files.contains_key(f) implies !#[trigger] r[j].files.contains_key(f) by {
            if j < a.len() {
                assert(a[i].files.contains_key(f));
                assert(!a[j].files.contains_key(f));
            } else if i >= a.len() {
                assert(b[i - a.len()].files.contains_key(f));
                assert(!b[j - a.len()].files.contains_key(f));
            } else {
                assert(a[i].files.contains_key(f));
                let m = choose|m: int| 0 <= m < n - 1 && overlays[#[trigger] sessions[m]].path_by_file.contains_key(f);
                assert(sessions.to_set().contains(sessions[m]));
                assert(sessions[m] != session);
                if b[j - a.len()].files.contains_key(f) {
                    assert(overlays[session].path_by_file.contains_key(f));
                    assert(overlays[sessions[m]].path_by_file.contains_key(f));
                }
            }
        }
        assert forall|i: int| 0 <= i < r.len() implies (#[trigger] r[i]).files.dom().finite() by {
            if i < a.len() {
                assert(a[i].files.dom().finite());
            } else {
                assert(b[i - a.len()].files.dom().finite());
            }
        }
    }
}

/// There are no more source roots of overlays than numbers were given.
proof fn lemma_session_roots_fit(overlays: Map<u64, OverlayView>, next: u32, roots: Seq<RootView>)
    requires
        overlays_sound(overlays, next),
    ensures
        session_roots(overlays, roots).len() <= next,
{
    let sessions = sorted_keys::<u64>(overlays.dom());
    let n = sessions.len() as int;
    let r = session_roots(overlays, roots);
    lemma_session_roots(overlays, next, roots, n);
    lemma_sorted_exists::<u64>(overlays.dom());
    let numbers = Seq::new(r.len(), |i: int| (choose|f: u32| #[trigger] r[i].files.contains_key(f)) as int);
    assert forall|i: int| 0 <= i < r.len() implies 0 <= #[trigger] numbers[i] < next && r[i].files.contains_key(numbers[i] as u32) by {
        assert(inhabited(r[i]));
        let f = choose|f: u32| #[trigger] r[i].files.contains_key(f);
        assert(r[i].files.contains_key(f));
        assert(in_first(overlays, n, f));
        let m = choose|m: int| 0 <= m < n && overlays[#[trigger] sessions[m]].path_by_file.contains_key(f);
        assert(sessions.to_set().contains(sessions[m]));
        assert(overlays.contains_key(sessions[m]));
        assert(overlays[sessions[m]].path_by_file.contains_key(f));
    }
    assert(numbers.no_duplicates()) by {
        assert forall|i: int, j: int| 0 <= i < j < numbers.len() implies numbers[i] != numbers[j] by {
            assert(r[i].files.contains_key(numbers[i] as u32));
            assert(r[j].files.contains_key(numbers[j] as u32));
        }
    }
    numbers.unique_seq_to_set();
    let range = vstd::set_lib::set_int_range(0, next as int);
    vstd::set_lib::lemma_int_range(0, next as int);
    assert(numbers.to_set().subset_of(range));
    vstd::set_lib::lemma_len_subset(numbers.to_set(), range);
}

proof fn lemma_without_files(set: Set<u32>, files: Seq<u32>)
    ensures
        forall|f: u32| #[trigger] without_files(set, files).contains(f) <==> set.contains(f) && !files.contains(f),
    decreases files.len(),
{
    if files.len() > 0 {
        lemma_without_files(set, files.drop_last());
        assert forall|f: u32| #[trigger] without_files(set, files).contains(f) <==> set.contains(f) && !files.contains(f) by {
            assert(without_files(set, files.drop_last()).contains(f) <==> set.contains(f) && !files.drop_last().contains(f));
            if files.drop_last().contains(f) {
                let i = files.drop_last().index_of(f);
                assert(files[i] == f);
            }
            if files.contains(f) && files.last() != f {
                let i = files.index_of(f);
                assert(files.drop_last()[i] == f);
            }
            if files.last() == f {
                assert(files[files.len() - 1] == f);
            }
        }
    }
}

spec fn mentions(changes: Seq<(u32, Option<Seq<char>>)>, f: u32) -> bool {
    exists|i: int| 0 <= i < changes.len() && (#[trigger] changes[i]).0 == f
}

proof fn lemma_mentions_concat(a: Seq<(u32, Option<Seq<char>>)>, b: Seq<(u32, Option<Seq<char>>)>, f: u32)
    ensures
        mentions(a + b, f) <==> mentions(a, f) || mentions(b, f),
{
    let c = a + b;
    if mentions(a, f) {
        let i = choose|i: int| 0 <= i < a.len() && (#[trigger] a[i]).0 == f;
        assert(c[i].0 == f);
    }
    if mentions(b, f) {
        let i = choose|i: int| 0 <= i < b.len() && (#[trigger] b[i]).0 == f;
        assert(c[a.len() + i].0 == f);
    }
    if mentions(c, f) {
        let i = choose|i: int| 0 <= i < c.len() && (#[trigger] c[i]).0 == f;
        if i < a.len() {
            assert(a[i].0 == f);
        } else {
            assert(b[i - a.len()].0 == f);
        }
    }
}

proof fn lemma_with_files(set: Set<u32>, changes: Seq<(u32, Option<Seq<char>>)>)
    ensures
        forall|f: u32| #[trigger] with_files(set, changes).contains(f) <==> set.contains(f) || mentions(changes, f),
    decreases changes.len(),
{
    if changes.len() > 0 {
        let rest = changes.drop_last();
        lemma_with_files(set, rest);
        assert(changes =~= rest + seq![changes.last()]);
        assert forall|f: u32| #[trigger] with_files(set, changes).contains(f) <==> set.contains(f) || mentions(changes, f) by {
            lemma_mentions_concat(rest, seq![changes.last()], f);
            assert(with_files(set, rest).contains(f) <==> set.contains(f) || mentions(rest, f));
            let last = seq![changes.last()];
            if changes.last().0 == f {
                assert(last[0].0 == f);
            }
        }
    }
}

/// The missing texts of an overlay are those of its files that are not applied.
proof fn lemma_missing_to(overlay: OverlayView, applied: Set<u32>, n: int)
    requires
        overlay.wf(),
        overlay.files.dom().finite(),
        0 <= n <= sorted_keys::<String>(overlay.files.dom()).len(),
    ensures
        ({
            let r = missing_to(overlay, applied, n);
            let keys = sorted_keys::<String>(overlay.files.dom());
            &&& forall|i: int|
                0 <= i < r.len() ==> overlay.path_by_file.contains_key((#[trigger] r[i]).0) && !applied.contains(r[i].0) && r[i].1
                    == Some(overlay.files[overlay.path_by_file[r[i].0]].text)
            &&& forall|j: int|
                0 <= j < n ==> applied.contains(overlay.files[#[trigger] keys[j]].overlay_file) || mentions(
                    r,
                    overlay.files[keys[j]].overlay_file,
                )
        }),
    decreases n,
{
    if n > 0 {
        lemma_missing_to(overlay, applied, n - 1);
        let before = missing_to(overlay, applied, n - 1);
        let r = missing_to(overlay, applied, n);
        let keys = sorted_keys::<String>(overlay.files.dom());
        lemma_sorted_exists::<String>(overlay.files.dom());
        assert(keys.to_set().contains(keys[n - 1]));
        assert(overlay.files.contains_key(keys[n - 1]));
        assert forall|j: int| 0 <= j < n implies applied.contains(overlay.files[#[trigger] keys[j]].overlay_file) || mentions(
            r,
            overlay.files[keys[j]].overlay_file,
        ) by {
            let f = overlay.files[keys[j]].overlay_file;
            if j < n - 1 {
                if mentions(before, f) {
                    let i = choose|i: int| 0 <= i < before.len() && (#[trigger] before[i]).0 == f;
                    assert(r[i].0 == f);
                }
            } else if !applied.contains(f) {
                assert(r[r.len() - 1].0 == f);
            }
        }
    }
}

proof fn lemma_missing(overlay: OverlayView, applied: Set<u32>)
    requires
        overlay.wf(),
        overlay.files.dom().finite(),
    ensures
        forall|i: int|
            0 <= i < missing(overlay, applied).len() ==> overlay.path_by_file.contains_key((#[trigger] missing(overlay, applied)[i]).0)
                && !applied.contains(missing(overlay, applied)[i].0) && missing(overlay, applied)[i].1 == Some(
                overlay.files[overlay.path_by_file[missing(overlay, applied)[i].0]].text,
            ),
        forall|f: u32|
            #[trigger] overlay.path_by_file.contains_key(f) ==> applied.contains(f) || mentions(missing(overlay, applied), f),
{
    let keys = sorted_keys::<String>(overlay.files.dom());
    lemma_sorted_exists::<String>(overlay.files.dom());
    lemma_missing_to(overlay, applied, keys.len() as int);
    assert forall|f: u32| #[trigger] overlay.path_by_file.contains_key(f) implies applied.contains(f) || mentions(
        missing(overlay, applied),
        f,
    ) by {
        let k = overlay.path_by_file[f];
        assert(overlay.files.contains_key(k));
        assert(keys.to_set().contains(k));
        let j = keys.index_of(k);
        assert(keys[j] == k);
    }
}

/// A change to a file's text comes from the overlay that has the file.
spec fn from_overlays(overlays: Map<u64, OverlayView>, applied: Set<u32>, change: (u32, Option<Seq<char>>)) -> bool {
    &&& !applied.contains(change.0)
    &&& exists|s: u64| #[trigger]
        overlays.contains_key(s) && overlays[s].path_by_file.contains_key(change.0) && change.1 == Some(
            overlays[s].files[overlays[s].path_by_file[change.0]].text,
        )
}

proof fn lemma_all_missing_to(overlays: Map<u64, OverlayView>, next: u32, applied: Set<u32>, n: int)
    requires
        overlays_sound(overlays, next),
        0 <= n <= sorted_keys::<u64>(overlays.dom()).len(),
    ensures
        forall|i: int|
            0 <= i < all_missing_to(overlays, applied, n).len() ==> from_overlays(
                overlays,
                applied,
                #[trigger] all_missing_to(overlays, applied, n)[i],
            ),
        forall|m: int, f: u32|
            0 <= m < n && #[trigger] overlays[sorted_keys::<u64>(overlays.dom())[m]].path_by_file.contains_key(f) ==> applied.contains(f)
                || mentions(all_missing_to(overlays, applied, n), f),
    decreases n,
{
    if n > 0 {
        lemma_all_missing_to(overlays, next, applied, n - 1);
        let sessions = sorted_keys::<u64>(overlays.dom());
        lemma_sorted_exists::<u64>(overlays.dom());
        assert(sessions.to_set().contains(sessions[n - 1]));
        let session = sessions[n - 1];
        let a = all_missing_to(overlays, applied, n - 1);
        let b = missing(overlays[session], applied);
        let r = all_missing_to(overlays, applied, n);
        lemma_missing(overlays[session], applied);
        assert forall|i: int| 0 <= i < r.len() implies from_overlays(overlays, applied, #[trigger] r[i]) by {
            if i < a.len() {
                assert(from_overlays(overlays, applied, a[i]));
            } else {
                assert(r[i] == b[i - a.len()]);
                assert(overlays.contains_key(session));
            }
        }
        assert forall|m: int, f: u32|
            0 <= m < n && #[trigger] overlays[sessions[m]].path_by_file.contains_key(f) implies applied.contains(f) || mentions(r, f) by {
            lemma_mentions_concat(a, b, f);
            if m < n - 1 {
                assert(applied.contains(f) || mentions(a, f));
            } else {
                assert(applied.contains(f) || mentions(b, f));
            }
        }
    }
}

/// What bringing the database up to date does: the world is well-formed again, and the only texts
/// that change are those of files that are gone and of overlay files that were not applied.
pub proof fn lemma_rebuilt(w: WorldView, removed: Seq<u32>, next: u32)
    requires
        w.sound(next),
        forall|i: int, s: u64|
            0 <= i < removed.len() && w.overlays.contains_key(s) ==> !#[trigger] w.overlays[s].path_by_file.contains_key(
                #[trigger] removed[i],
            ),
    ensures
        all_roots(w).len() <= u32::MAX,
        rebuilt(w, removed).wf(next),
        rebuilt(w, removed).base.inputs.roots.len() >= w.base.inputs.roots.len(),
        forall|f: u32|
            !removed.contains(f) && (forall|s: u64|
                #[trigger] w.overlays.contains_key(s) && w.overlays[s].path_by_file.contains_key(f) ==> w.applied.contains(f))
                ==> #[trigger] rebuilt(w, removed).base.inputs.texts[f] == w.base.inputs.texts[f],
{
    let inputs = w.base.inputs;
    let new = all_roots(w);
    let applied = without_files(w.applied, removed);
    let sessions = sorted_keys::<u64>(w.overlays.dom());
    let absent = all_missing(w.overlays, applied);
    let changes = text_changes(w, removed);
    let r = rebuilt(w, removed);
    lemma_session_roots_fit(w.overlays, next, inputs.roots);
    lemma_session_roots(w.overlays, next, inputs.roots, sessions.len() as int);
    lemma_with_roots(inputs, new);
    lemma_sorted_exists::<u64>(w.overlays.dom());
    lemma_all_missing_to(w.overlays, next, applied, sessions.len() as int);
    lemma_without_files(w.applied, removed);
    lemma_with_files(applied, absent);
    let middle = inputs.with_roots(new);
    assert(r.base.inputs == middle.with_texts(changes));
    assert forall|s: u64, f: u32| w.overlays.contains_key(s) && #[trigger] w.overlays[s].path_by_file.contains_key(f) implies applied.contains(f)
        || mentions(absent, f) by {
        assert(sessions.to_set().contains(s));
        let m = sessions.index_of(s);
        assert(w.overlays[sessions[m]].path_by_file.contains_key(f));
    }
    // The texts, file by file.
    assert forall|f: u32|
        {
            &&& #[trigger] middle.texts.contains_key(f) ==> r.base.inputs.texts.contains_key(f)
            &&& r.base.inputs.roots == middle.roots
            &&& r.base.inputs.file_roots == middle.file_roots
        } by {
        let on = exists|s: u64| #[trigger] w.overlays.contains_key(s) && w.overlays[s].path_by_file.contains_key(f);
        lemma_text_of(w, removed, next, f);
    }
    assert forall|s: u64, f: u32| w.overlays.contains_key(s) && #[trigger] w.overlays[s].path_by_file.contains_key(f) implies {
        &&& r.applied.contains(f)
        &&& r.base.inputs.texts.contains_key(f)
        &&& r.base.inputs.texts[f] == w.overlays[s].files[w.overlays[s].path_by_file[f]].text
    } by {
        lemma_text_of(w, removed, next, f);
        assert(!removed.contains(f)) by {
            if removed.contains(f) {
                let i = removed.index_of(f);
                assert(w.overlays[s].path_by_file.contains_key(removed[i]));
            }
        }
    }
    assert(r.base.readable()) by {
        lemma_text_of(w, removed, next, 0);
        assert forall|i: int, f: u32|
            0 <= i < r.base.inputs.roots.len() && #[trigger] r.base.inputs.roots[i].files.contains_key(f) implies r.base.inputs.texts.contains_key(f) by {
            if i < inputs.roots.len() && middle.roots[i] == inputs.roots[i] {
                assert(inputs.roots[i].files.contains_key(f));
                assert(middle.texts.contains_key(f));
            } else {
                assert(middle.roots[i] == new[i]);
                let disk = disk_roots(w);
                if i < disk.len() {
                    assert(new[i] == inputs.roots[i]);
                    assert(inputs.roots[i].files.contains_key(f));
                    assert(middle.texts.contains_key(f));
                } else {
                    let own = session_roots(w.overlays, inputs.roots);
                    assert(own[i - disk.len()].files.contains_key(f));
                    let m = choose|m: int|
                        0 <= m < sessions.len() && w.overlays[#[trigger] sessions[m]].path_by_file.contains_key(f);
                    assert(sessions.to_set().contains(sessions[m]));
                    assert(w.overlays[sessions[m]].path_by_file.contains_key(f));
                }
            }
        }
        assert forall|i: int| 0 <= i < r.base.inputs.roots.len() implies (#[trigger] r.base.inputs.roots[i]).files.dom().finite() by {
            if i < inputs.roots.len() && middle.roots[i] == inputs.roots[i] {
                assert(inputs.roots[i].files.dom().finite());
            } else {
                assert(middle.roots[i] == new[i]);
                let disk = disk_roots(w);
                if i < disk.len() {
                    assert(new[i] == inputs.roots[i]);
                } else {
                    let own = session_roots(w.overlays, inputs.roots);
                    assert(own[i - disk.len()].files.dom().finite());
                }
            }
        }
        assert forall|k: int, f: u32|
            0 <= k < r.base.workspaces.len() && #[trigger] r.base.workspaces[k].files.file_exists(f) implies r.base.inputs.file_roots.contains_key(f)
            && r.base.inputs.texts.contains_key(f) by {
            assert(w.base.workspaces[k].files.file_exists(f));
            assert(middle.texts.contains_key(f));
            assert(inputs.file_roots.contains_key(f));
        }
    }
    lemma_text_of(w, removed, next, 0);
    assert(roots_listed(r.file_ids, r.base.inputs.roots, next)) by {
        assert(roots_listed(w.file_ids, new, next)) by {
            reveal(roots_listed);
            let disk = disk_roots(w);
            assert forall|i: int, f: u32| 0 <= i < new.len() && #[trigger] new[i].files.contains_key(f) implies f < next
                && listed_under(w.file_ids, f, new[i].files[f].key) by {
                if i < disk.len() {
                    assert(inputs.roots[i].files.contains_key(f));
                } else {
                    let own = session_roots(w.overlays, inputs.roots);
                    assert(own[i - disk.len()].files.contains_key(f));
                    let m = choose|m: int|
                        0 <= m < sessions.len() && w.overlays[#[trigger] sessions[m]].path_by_file.contains_key(f);
                    assert(sessions.to_set().contains(sessions[m]));
                    assert(w.overlays.contains_key(sessions[m]));
                    assert(w.overlays[sessions[m]].path_by_file.contains_key(f));
                }
            }
        }
        lemma_listed_merged(w.file_ids, inputs.roots, new, next);
    }
    assert(applied_sound(r, next)) by {
        assert forall|f: u32| #[trigger] r.applied.contains(f) implies f < next && r.base.inputs.texts.contains_key(f) by {
            lemma_text_of(w, removed, next, f);
            if mentions(absent, f) {
                let i = choose|i: int| 0 <= i < absent.len() && (#[trigger] absent[i]).0 == f;
                assert(from_overlays(w.overlays, applied, absent[i]));
                let s = choose|s: u64| #[trigger]
                    w.overlays.contains_key(s) && w.overlays[s].path_by_file.contains_key(f) && absent[i].1 == Some(
                        w.overlays[s].files[w.overlays[s].path_by_file[f]].text,
                    );
                assert(w.overlays[s].path_by_file.contains_key(f));
            } else {
                assert(w.applied.contains(f));
                assert(middle.texts.contains_key(f));
            }
        }
    }
    assert forall|f: u32|
        !removed.contains(f) && (forall|s: u64|
            #[trigger] w.overlays.contains_key(s) && w.overlays[s].path_by_file.contains_key(f) ==> w.applied.contains(f)) implies #[trigger] r.base.inputs.texts[f]
        == w.base.inputs.texts[f] by {
        lemma_text_of(w, removed, next, f);
    }
}

proof fn lemma_assigned_kept(file_roots: Map<u32, u32>, old_roots: Seq<RootView>, new_roots: Seq<RootView>, n: int, f: u32)
    requires
        0 <= n <= new_roots.len(),
        forall|i: int| 0 <= i < n && #[trigger] root_changed(old_roots, new_roots, i) ==> !new_roots[i].files.contains_key(f),
    ensures
        assigned(file_roots, old_roots, new_roots, n).contains_key(f) == file_roots.contains_key(f),
        file_roots.contains_key(f) ==> assigned(file_roots, old_roots, new_roots, n)[f] == file_roots[f],
    decreases n,
{
    if n > 0 {
        lemma_assigned_kept(file_roots, old_roots, new_roots, n - 1, f);
        if root_changed(old_roots, new_roots, n - 1) {
            assert(!moved(old_roots, new_roots, n - 1).contains(f));
        }
    }
}

/// A file stays in its source root, or comes into one that is set anew and did not hold it.
pub proof fn lemma_assigned_cases(file_roots: Map<u32, u32>, old_roots: Seq<RootView>, new_roots: Seq<RootView>, n: int, f: u32)
    requires
        0 <= n <= new_roots.len(),
        new_roots.len() <= u32::MAX,
    ensures
        assigned(file_roots, old_roots, new_roots, n).contains_key(f) ==> {
            let root = assigned(file_roots, old_roots, new_roots, n)[f];
            ||| file_roots.contains_key(f) && root == file_roots[f]
            ||| root < n && root_changed(old_roots, new_roots, root as int) && moved(old_roots, new_roots, root as int).contains(f)
        },
        file_roots.contains_key(f) ==> assigned(file_roots, old_roots, new_roots, n).contains_key(f),
    decreases n,
{
    if n > 0 {
        lemma_assigned_cases(file_roots, old_roots, new_roots, n - 1, f);
    }
}

/// The source roots on disk stay when the database is brought up to date with the overlays, and the
/// files that are in no overlay stay in their roots.
pub proof fn lemma_disk_roots_kept(w: WorldView, removed: Seq<u32>, next: u32)
    requires
        w.sound(next),
        forall|i: int, s: u64|
            0 <= i < removed.len() && w.overlays.contains_key(s) ==> !#[trigger] w.overlays[s].path_by_file.contains_key(
                #[trigger] removed[i],
            ),
    ensures
        forall|i: int|
            0 <= i < disk_roots(w).len() ==> #[trigger] rebuilt(w, removed).base.inputs.roots[i] == w.base.inputs.roots[i],
        forall|f: u32|
            (forall|s: u64| #[trigger] w.overlays.contains_key(s) ==> !w.overlays[s].path_by_file.contains_key(f)) ==> {
                &&& #[trigger] rebuilt(w, removed).base.inputs.file_roots.contains_key(f) == w.base.inputs.file_roots.contains_key(f)
                &&& w.base.inputs.file_roots.contains_key(f) ==> rebuilt(w, removed).base.inputs.file_roots[f]
                    == w.base.inputs.file_roots[f]
            },
        forall|f: u32|
            #[trigger] rebuilt(w, removed).base.inputs.file_roots.contains_key(f) && !w.base.inputs.file_roots.contains_key(f)
                ==> exists|i: int|
                0 <= i < rebuilt(w, removed).base.inputs.roots.len() && (#[trigger] rebuilt(w, removed).base.inputs.roots[i]).files.contains_key(
                    f,
                ),
{
    let inputs = w.base.inputs;
    let new = all_roots(w);
    let disk = disk_roots(w);
    let sessions = sorted_keys::<u64>(w.overlays.dom());
    let r = rebuilt(w, removed);
    lemma_rebuilt(w, removed, next);
    lemma_text_of(w, removed, next, 0);
    lemma_session_roots(w.overlays, next, inputs.roots, sessions.len() as int);
    lemma_sorted_exists::<u64>(w.overlays.dom());
    assert forall|i: int| 0 <= i < disk.len() implies !#[trigger] root_changed(inputs.roots, new, i) && r.base.inputs.roots[i]
        == inputs.roots[i] by {
        assert(new[i] == inputs.roots[i]);
    }
    assert forall|f: u32|
        (forall|s: u64| #[trigger] w.overlays.contains_key(s) ==> !w.overlays[s].path_by_file.contains_key(f)) implies {
        &&& #[trigger] r.base.inputs.file_roots.contains_key(f) == inputs.file_roots.contains_key(f)
        &&& inputs.file_roots.contains_key(f) ==> r.base.inputs.file_roots[f] == inputs.file_roots[f]
    } by {
        assert forall|i: int| 0 <= i < new.len() && #[trigger] root_changed(inputs.roots, new, i) implies !new[i].files.contains_key(f) by {
            if new[i].files.contains_key(f) {
                let own = session_roots(w.overlays, inputs.roots);
                assert(own[i - disk.len()].files.contains_key(f));
                let m = choose|m: int|
                    0 <= m < sessions.len() && w.overlays[#[trigger] sessions[m]].path_by_file.contains_key(f);
                assert(sessions.to_set().contains(sessions[m]));
                assert(w.overlays.contains_key(sessions[m]));
            }
        }
        lemma_assigned_kept(inputs.file_roots, inputs.roots, new, new.len() as int, f);
    }
    assert forall|f: u32| #[trigger] r.base.inputs.file_roots.contains_key(f) && !inputs.file_roots.contains_key(f) implies exists|i: int|
        0 <= i < r.base.inputs.roots.len() && (#[trigger] r.base.inputs.roots[i]).files.contains_key(f) by {
        lemma_assigned_cases(inputs.file_roots, inputs.roots, new, new.len() as int, f);
        let i = r.base.inputs.file_roots[f] as int;
        assert(r.base.inputs.roots[i].files.contains_key(f));
    }
}

/// The text of a file once the database is up to date.
proof fn lemma_text_of(w: WorldView, removed: Seq<u32>, next: u32, f: u32)
    requires
        w.sound(next),
        forall|i: int, s: u64|
            0 <= i < removed.len() && w.overlays.contains_key(s) ==> !#[trigger] w.overlays[s].path_by_file.contains_key(
                #[trigger] removed[i],
            ),
        all_roots(w).len() <= u32::MAX,
    ensures
        ({
            let middle = w.base.inputs.with_roots(all_roots(w));
            let r = rebuilt(w, removed);
            &&& r.base.inputs.roots == middle.roots
            &&& r.base.inputs.file_roots == middle.file_roots
            &&& middle.texts.contains_key(f) ==> r.base.inputs.texts.contains_key(f)
            &&& mentions(all_missing(w.overlays, without_files(w.applied, removed)), f) ==> r.base.inputs.texts.contains_key(f)
            &&& forall|s: u64|
                #[trigger] w.overlays.contains_key(s) && w.overlays[s].path_by_file.contains_key(f) ==> r.base.inputs.texts[f]
                    == w.overlays[s].files[w.overlays[s].path_by_file[f]].text
            &&& !removed.contains(f) && (forall|s: u64|
                #[trigger] w.overlays.contains_key(s) && w.overlays[s].path_by_file.contains_key(f) ==> w.applied.contains(f))
                ==> r.base.inputs.texts[f] == w.base.inputs.texts[f]
        }),
{
    let middle = w.base.inputs.with_roots(all_roots(w));
    let applied = without_files(w.applied, removed);
    let sessions = sorted_keys::<u64>(w.overlays.dom());
    let absent = all_missing(w.overlays, applied);
    let gone = removals(removed);
    let changes = text_changes(w, removed);
    lemma_with_roots(w.base.inputs, all_roots(w));
    lemma_sorted_exists::<u64>(w.overlays.dom());
    lemma_all_missing_to(w.overlays, next, applied, sessions.len() as int);
    lemma_without_files(w.applied, removed);
    lemma_mentions_concat(gone, absent, f);
    assert(mentions(gone, f) <==> removed.contains(f)) by {
        if mentions(gone, f) {
            let i = choose|i: int| 0 <= i < gone.len() && (#[trigger] gone[i]).0 == f;
            assert(removed[i] == f);
        }
        if removed.contains(f) {
            let i = removed.index_of(f);
            assert(gone[i].0 == f);
        }
    }
    assert(forall|i: int| 0 <= i < absent.len() ==> from_overlays(w.overlays, applied, #[trigger] absent[i]));
    if exists|s: u64| #[trigger] w.overlays.contains_key(s) && w.overlays[s].path_by_file.contains_key(f) {
        let s = choose|s: u64| #[trigger] w.overlays.contains_key(s) && w.overlays[s].path_by_file.contains_key(f);
        let text = w.overlays[s].files[w.overlays[s].path_by_file[f]].text;
        assert(!removed.contains(f)) by {
            if removed.contains(f) {
                let i = removed.index_of(f);
                assert(w.overlays[s].path_by_file.contains_key(removed[i]));
            }
        }
        assert forall|i: int| 0 <= i < changes.len() && (#[trigger] changes[i]).0 == f implies changes[i].1 == Some(text) by {
            if i < gone.len() {
                assert(gone[i].0 == f);
            } else {
                let c = absent[i - gone.len()];
                assert(from_overlays(w.overlays, applied, c));
                let t = choose|t: u64| #[trigger]
                    w.overlays.contains_key(t) && w.overlays[t].path_by_file.contains_key(c.0) && c.1 == Some(
                        w.overlays[t].files[w.overlays[t].path_by_file[c.0]].text,
                    );
                if s != t {
                    assert(w.overlays[s].path_by_file.contains_key(f));
                    assert(w.overlays[t].path_by_file.contains_key(f));
                }
            }
        }
        lemma_with_texts(middle, changes, f, Some(text));
        assert(sessions.to_set().contains(s));
        let m = sessions.index_of(s);
        assert(w.overlays[sessions[m]].path_by_file.contains_key(f));
        if !mentions(absent, f) {
            assert(w.applied.contains(f));
            assert(w.overlays[s].path_by_file.contains_key(f) && w.applied.contains(f));
        } else {
            let i = choose|i: int| 0 <= i < absent.len() && (#[trigger] absent[i]).0 == f;
            assert(from_overlays(w.overlays, applied, absent[i]));
            assert(!w.applied.contains(f));
            assert(changes[gone.len() + i].0 == f);
        }
        assert forall|t: u64| #[trigger] w.overlays.contains_key(t) && w.overlays[t].path_by_file.contains_key(f) implies t == s by {
            if s != t {
                assert(w.overlays[s].path_by_file.contains_key(f));
                assert(w.overlays[t].path_by_file.contains_key(f));
            }
        }
    } else {
        assert(!mentions(absent, f)) by {
            if mentions(absent, f) {
                let i = choose|i: int| 0 <= i < absent.len() && (#[trigger] absent[i]).0 == f;
                assert(from_overlays(w.overlays, applied, absent[i]));
                let t = choose|t: u64| #[trigger]
                    w.overlays.contains_key(t) && w.overlays[t].path_by_file.contains_key(f) && absent[i].1 == Some(
                        w.overlays[t].files[w.overlays[t].path_by_file[f]].text,
                    );
                assert(w.overlays.contains_key(t) && w.overlays[t].path_by_file.contains_key(f));
            }
        }
        assert forall|i: int| 0 <= i < changes.len() && (#[trigger] changes[i]).0 == f implies changes[i].1 is None by {
            if i >= gone.len() {
                assert(absent[i - gone.len()].0 == f);
            } else {
                assert(changes[i] == gone[i]);
            }
        }
        lemma_with_texts(middle, changes, f, None);
        assert((exists|i: int| 0 <= i < changes.len() && (#[trigger] changes[i]).0 == f) == mentions(changes, f));
    }
}

fn push_overlay_roots(all: &mut Vec<SourceRoot>, overlay: &ActiveSessionOverlay, roots: &Vec<SourceRoot>)
    requires
        overlay@.wf(),
        forall|k: Seq<char>| #[trigger] overlay@.files.contains_key(k) ==> overlay@.files[k].base_source_root < roots.len(),
    ensures
        root_views(final(all)@) == root_views(old(all)@) + overlay_roots(overlay@, root_views(roots@)),
{
    let ids = overlay.roots();
    let ghost start = root_views(all@);
    let mut i: usize = 0;
    proof {
        assert(root_views(all@) =~= start + overlay_roots_to(overlay@, root_views(roots@), 0));
    }
    while i < ids.len()
        invariant
            i <= ids.len(),
            overlay@.wf(),
            ids@ == sorted_keys::<u32>(overlaid_roots(overlay@)),
            forall|j: int| 0 <= j < ids@.len() ==> overlaid_roots(overlay@).contains(#[trigger] ids@[j]),
            forall|k: Seq<char>| #[trigger] overlay@.files.contains_key(k) ==> overlay@.files[k].base_source_root < roots.len(),
            root_views(all@) == start + overlay_roots_to(overlay@, root_views(roots@), i as int),
        decreases ids.len() - i,
    {
        let id: u32 = ids[i];
        proof {
            assert(overlaid_roots(overlay@).contains(ids@[i as int]));
        }
        let root = overlay.root_of(id, roots[id as usize].is_library);
        let ghost before = root_views(all@);
        let ghost view = root@;
        all.push(root);
        proof {
            assert(root_views(all@) =~= before.push(view));
            assert(root_views(all@) =~= start + overlay_roots_to(overlay@, root_views(roots@), i + 1));
        }
        i = i + 1;
    }
}

fn push_missing(
    changes: &mut Vec<(u32, Option<String>)>,
    overlay: &ActiveSessionOverlay,
    applied: &FxHashSet<u32>,
)
    ensures
        final(changes).deep_view() == old(changes).deep_view() + missing(overlay@, applied@),
{
    let n = overlay.files_by_path.len();
    let ghost start = changes.deep_view();
    let mut i: usize = 0;
    proof {
        lemma_sorted_keys(overlay.files_by_path);
        assert(overlay@.files.dom() =~= overlay.files_by_path@.dom());
        assert(changes.deep_view() =~= start + missing_to(overlay@, applied@, 0));
    }
    while i < n
        invariant
            i <= n,
            n == overlay.files_by_path.keys().len(),
            listed(overlay.files_by_path),
            overlay.files_by_path.keys() == sorted_keys::<String>(overlay@.files.dom()),
            changes.deep_view() == start + missing_to(overlay@, applied@, i as int),
        decreases n - i,
    {
        let file = overlay.files_by_path.value_at(i);
        proof {
            assert(overlay.files_by_path@.contains_key(overlay.files_by_path.keys()[i as int]));
            assert(overlay@.files[overlay.files_by_path.keys()[i as int]] == file@);
        }
        if !fx_contains(applied, file.overlay_file) {
            let ghost before = changes.deep_view();
            changes.push((file.overlay_file, Some(file.text.clone())));
            proof {
                assert(changes.deep_view() =~= before.push((file.overlay_file, Some(file.text@))));
                assert(changes.deep_view() =~= start + missing_to(overlay@, applied@, i + 1));
            }
        }
        i = i + 1;
    }
}

impl SharedWorld {
    /// The source roots on disk, and behind them those of the sessions' overlays.
    pub fn overlay_source_roots(&self) -> (r: Vec<SourceRoot>)
        requires
            self@.max_root matches Some(max) ==> max < self@.base.inputs.roots.len(),
            forall|s: u64| #[trigger] self@.overlays.contains_key(s) ==> self@.overlays[s].wf(),
            overlay_roots_known(self@.overlays, self@.base.inputs.roots.len()),
        ensures
            root_views(r@) == all_roots(self@),
    {
        let mut all: Vec<SourceRoot> = Vec::new();
        let ghost roots = self@.base.inputs.roots;
        match self.base_max_source_root {
            Some(max) => {
                let mut i: usize = 0;
                while i <= max as usize
                    invariant
                        i <= max + 1,
                        max < self.base.inputs.roots.len(),
                        roots == root_views(self.base.inputs.roots@),
                        root_views(all@) == roots.take(i as int),
                    decreases max + 1 - i,
                {
                    let root = self.base.inputs.roots[i].duplicate();
                    let ghost before = root_views(all@);
                    let ghost view = root@;
                    all.push(root);
                    proof {
                        assert(root_views(all@) =~= before.push(view));
                        assert(root_views(all@) =~= roots.take(i + 1));
                    }
                    i = i + 1;
                }
            },
            None => {},
        }
        proof {
            assert(root_views(all@) =~= disk_roots(self@));
        }
        let n = self.overlays.len();
        let ghost overlays = self@.overlays;
        let mut s: usize = 0;
        proof {
            lemma_sorted_keys(self.overlays);
            assert(overlays.dom() =~= self.overlays@.dom());
            assert(root_views(all@) =~= disk_roots(self@) + session_roots_to(overlays, roots, 0));
        }
        while s < n
            invariant
                s <= n,
                n == self.overlays.keys().len(),
                listed(self.overlays),
                overlays == self@.overlays,
                roots == root_views(self.base.inputs.roots@),
                self.overlays.keys() == sorted_keys::<u64>(overlays.dom()),
                forall|t: u64| #[trigger] self@.overlays.contains_key(t) ==> self@.overlays[t].wf(),
                overlay_roots_known(self@.overlays, self@.base.inputs.roots.len()),
                root_views(all@) == disk_roots(self@) + session_roots_to(overlays, roots, s as int),
            decreases n - s,
        {
            let overlay = self.overlays.value_at(s);
            let ghost before = root_views(all@);
            proof {
                let session = self.overlays.keys()[s as int];
                assert(self.overlays@.contains_key(self.overlays.keys()[s as int]));
                assert(overlays.contains_key(session) && overlays[session] == overlay@);
            }
            push_overlay_roots(&mut all, overlay, &self.base.inputs.roots);
            proof {
                assert(root_views(all@) =~= disk_roots(self@) + session_roots_to(overlays, roots, s + 1));
            }
            s = s + 1;
        }
        all
    }

    /// Brings the database up to date with the overlays, and tells what has changed. The given
    /// files are gone.
    pub fn rebuild_overlay_inputs(&mut self, removed_file_ids: &Vec<u32>, ids: &SharedFileIds) -> (r: InputChange)
        requires
            old(self)@.sound(ids.next),
            forall|i: int, s: u64|
                0 <= i < removed_file_ids@.len() && old(self)@.overlays.contains_key(s)
                    ==> !#[trigger] old(self)@.overlays[s].path_by_file.contains_key(#[trigger] removed_file_ids@[i]),
        ensures
            final(self)@ == rebuilt(old(self)@, removed_file_ids@),
            final(self)@.wf(ids.next),
            is_change(r, old(self)@, removed_file_ids@),
    {
        let ghost w = self@;
        let ghost removed = removed_file_ids@;
        proof {
            lemma_rebuilt(w, removed, ids.next);
        }
        let roots = self.overlay_source_roots();
        let graph = overlay_crate_graph(&self.base.base_crates, &self.overlays);
        let mut texts: Vec<(u32, Option<String>)> = Vec::new();
        let mut i: usize = 0;
        proof {
            assert(removed.take(0) =~= Seq::empty());
            assert(texts.deep_view() =~= removals(removed.take(0)));
        }
        while i < removed_file_ids.len()
            invariant
                i <= removed_file_ids.len(),
                removed == removed_file_ids@,
                self.base == old(self).base,
                self.overlays == old(self).overlays,
                self@ == (WorldView { applied: without_files(w.applied, removed.take(i as int)), ..w }),
                texts.deep_view() == removals(removed.take(i as int)),
            decreases removed_file_ids.len() - i,
        {
            let file: u32 = removed_file_ids[i];
            let ghost before = texts.deep_view();
            fx_remove(&mut self.applied_overlay_files, file);
            texts.push((file, None));
            proof {
                assert(removed.take(i + 1).drop_last() =~= removed.take(i as int));
                assert(texts.deep_view() =~= before.push((file, None)));
                assert(texts.deep_view() =~= removals(removed.take(i + 1)));
            }
            i = i + 1;
        }
        let ghost applied = without_files(w.applied, removed);
        let n = self.overlays.len();
        let mut s: usize = 0;
        proof {
            assert(removed.take(i as int) =~= removed);
            lemma_sorted_keys(self.overlays);
            assert(w.overlays.dom() =~= self.overlays@.dom());
            assert(texts.deep_view() =~= removals(removed) + all_missing_to(w.overlays, applied, 0));
        }
        while s < n
            invariant
                s <= n,
                n == self.overlays.keys().len(),
                listed(self.overlays),
                self@ == (WorldView { applied, ..w }),
                self.overlays.keys() == sorted_keys::<u64>(w.overlays.dom()),
                texts.deep_view() == removals(removed) + all_missing_to(w.overlays, applied, s as int),
            decreases n - s,
        {
            let overlay = self.overlays.value_at(s);
            proof {
                let session = self.overlays.keys()[s as int];
                assert(self.overlays@.contains_key(self.overlays.keys()[s as int]));
                assert(self@.overlays == w.overlays);
                assert(w.overlays[session] == overlay@);
            }
            push_missing(&mut texts, overlay, &self.applied_overlay_files);
            proof {
                assert(texts.deep_view() =~= removals(removed) + all_missing_to(w.overlays, applied, s + 1));
            }
            s = s + 1;
        }
        let ghost absent = all_missing(w.overlays, applied);
        let mut k: usize = removed_file_ids.len();
        proof {
            assert(texts.deep_view() == removals(removed) + absent);
            assert(absent.take(0) =~= Seq::empty());
        }
        while k < texts.len()
            invariant
                removed.len() <= k <= texts.len(),
                removed == removed_file_ids@,
                texts.deep_view() == removals(removed) + absent,
                self.base == old(self).base,
                self.overlays == old(self).overlays,
                self@ == (WorldView { applied: with_files(applied, absent.take(k - removed.len())), ..w }),
            decreases texts.len() - k,
        {
            let file: u32 = texts[k].0;
            proof {
                assert(texts.deep_view().len() == texts@.len());
            }
            fx_insert(&mut self.applied_overlay_files, file);
            proof {
                let j = k - removed.len();
                assert(absent.take(j + 1).drop_last() =~= absent.take(j));
                assert(texts.deep_view()[k as int] == absent[j]);
                assert(texts.deep_view()[k as int].0 == file);
            }
            k = k + 1;
        }
        proof {
            assert(absent.take(k - removed.len()) =~= absent);
        }
        let changed_roots = self.base.inputs.apply_source_roots(roots);
        self.base.inputs.set_texts(&texts);
        proof {
            assert(self@ =~= rebuilt(w, removed));
        }
        InputChange { graph, roots: changed_roots, texts }
    }
}

/// The database is told of the files that are gone, and of the text of each file of an overlay that
/// it does not have already. Files that are gone it does not have any more.
pub proof fn law_database_is_told_what_it_lacks(w: WorldView, next: u32, removed: Seq<u32>, f: u32, text: Seq<char>)
    requires
        overlays_sound(w.overlays, next),
    ensures
        ({
            let told = text_changes(w, removed);
            let had = w.applied.contains(f) && !removed.contains(f);
            &&& told.contains((f, None)) <==> removed.contains(f)
            &&& told.contains((f, Some(text))) ==> !had && exists|s: u64| #[trigger]
                w.overlays.contains_key(s) && w.overlays[s].path_by_file.contains_key(f) && w.overlays[s].files[w.overlays[s].path_by_file[f]].text
                    == text
            &&& forall|s: u64| #[trigger]
                w.overlays.contains_key(s) && w.overlays[s].path_by_file.contains_key(f) && !had ==> exists|i: int|
                    0 <= i < told.len() && (#[trigger] told[i]).0 == f && told[i].1 is Some
            &&& rebuilt(w, removed).applied.contains(f) <==> had || exists|s: u64| #[trigger]
                w.overlays.contains_key(s) && w.overlays[s].path_by_file.contains_key(f)
        }),
{
    let left = without_files(w.applied, removed);
    lemma_without_files(w.applied, removed);
    let gone = removals(removed);
    let lacking = all_missing(w.overlays, left);
    let told = text_changes(w, removed);
    let sessions = sorted_keys::<u64>(w.overlays.dom());
    lemma_sorted_exists::<u64>(w.overlays.dom());
    lemma_all_missing_to(w.overlays, next, left, sessions.len() as int);
    lemma_with_files(left, lacking);
    assert(left.contains(f) <==> w.applied.contains(f) && !removed.contains(f));
    if removed.contains(f) {
        let i = removed.index_of(f);
        assert(told[i] == gone[i]);
        assert(told[i] == (f, None::<Seq<char>>));
    }
    if told.contains((f, None)) {
        let i = told.index_of((f, None));
        if i < gone.len() {
            assert(gone[i] == told[i]);
            assert(removed[i] == f);
        } else {
            assert(told[i] == lacking[i - gone.len()]);
            assert(from_overlays(w.overlays, left, lacking[i - gone.len()]));
        }
    }
    if told.contains((f, Some(text))) {
        let i = told.index_of((f, Some(text)));
        if i < gone.len() {
            assert(gone[i] == told[i]);
        } else {
            assert(told[i] == lacking[i - gone.len()]);
            assert(from_overlays(w.overlays, left, lacking[i - gone.len()]));
        }
    }
    assert forall|s: u64| #[trigger] w.overlays.contains_key(s) && w.overlays[s].path_by_file.contains_key(f) implies left.contains(f)
        || mentions(lacking, f) by {
        assert(sessions.to_set().contains(s));
        let m = sessions.index_of(s);
        assert(w.overlays[sessions[m]].path_by_file.contains_key(f));
    }
    assert forall|s: u64| #[trigger]
        w.overlays.contains_key(s) && w.overlays[s].path_by_file.contains_key(f) && !left.contains(f) implies exists|i: int|
        0 <= i < told.len() && (#[trigger] told[i]).0 == f && told[i].1 is Some by {
        let k = choose|k: int| 0 <= k < lacking.len() && (#[trigger] lacking[k]).0 == f;
        assert(from_overlays(w.overlays, left, lacking[k]));
        assert(told[gone.len() + k] == lacking[k]);
    }
    if mentions(lacking, f) {
        let k = choose|k: int| 0 <= k < lacking.len() && (#[trigger] lacking[k]).0 == f;
        assert(from_overlays(w.overlays, left, lacking[k]));
    }
}

/// A source root of an overlay: it stands for one on disk, is a library's if that is, and holds the
/// files of the overlay that belong there under their paths.
pub open spec fn stands_for(root: RootView, overlay: OverlayView, roots: Seq<RootView>, id: u32) -> bool {
    &&& root.is_library == roots[id as int].is_library
    &&& forall|f: u32| #[trigger]
        root.files.contains_key(f) <==> overlay.path_by_file.contains_key(f) && overlay.files[overlay.path_by_file[f]].base_source_root == id
    &&& forall|f: u32| #[trigger] root.files.contains_key(f) ==> root.files[f] == overlay.files[overlay.path_by_file[f]].path
}

/// The root stands for one on disk that some session's overlay has files of.
pub open spec fn has_source(overlays: Map<u64, OverlayView>, roots: Seq<RootView>, root: RootView) -> bool {
    exists|s: u64, k: Seq<char>|
        overlays.contains_key(s) && #[trigger] overlays[s].files.contains_key(k) && stands_for(
            root,
            overlays[s],
            roots,
            overlays[s].files[k].base_source_root,
        )
}

/// One of the roots from `from` on stands for the given one on disk in an overlay.
pub open spec fn has_stand_in(list: Seq<RootView>, from: int, overlay: OverlayView, roots: Seq<RootView>, id: u32) -> bool {
    exists|i: int| from <= i < list.len() && stands_for(#[trigger] list[i], overlay, roots, id)
}

/// The source roots on disk come first, as they are. Behind them each overlay has, for each source
/// root on disk that it has files of, one of its own with these files, and none besides.
pub proof fn law_overlays_bring_their_own_roots(w: WorldView, next: u32, disk: int)
    requires
        overlays_sound(w.overlays, next),
        match w.max_root {
            Some(max) => max < w.base.inputs.roots.len() && disk == max + 1,
            None => disk == 0,
        },
    ensures
        all_roots(w).len() >= disk,
        forall|i: int| 0 <= i < disk ==> #[trigger] all_roots(w)[i] == w.base.inputs.roots[i],
        forall|i: int| disk <= i < all_roots(w).len() ==> has_source(w.overlays, w.base.inputs.roots, #[trigger] all_roots(w)[i]),
        forall|s: u64, k: Seq<char>|
            w.overlays.contains_key(s) && #[trigger] w.overlays[s].files.contains_key(k) ==> has_stand_in(
                all_roots(w),
                disk,
                w.overlays[s],
                w.base.inputs.roots,
                w.overlays[s].files[k].base_source_root,
            ),
{
    let roots = w.base.inputs.roots;
    let sessions = sorted_keys::<u64>(w.overlays.dom());
    lemma_sorted_exists::<u64>(w.overlays.dom());
    let behind = session_roots(w.overlays, roots);
    let r = all_roots(w);
    assert(disk_roots(w).len() == disk);
    assert forall|i: int| disk <= i < all_roots(w).len() implies has_source(w.overlays, roots, #[trigger] all_roots(w)[i]) by {
        assert(r[i] == behind[i - disk]);
        lemma_source_of_root(w.overlays, next, roots, sessions.len() as int, i - disk);
    }
    assert forall|s: u64, k: Seq<char>|
        w.overlays.contains_key(s) && #[trigger] w.overlays[s].files.contains_key(k) implies has_stand_in(
        all_roots(w),
        disk,
        w.overlays[s],
        roots,
        w.overlays[s].files[k].base_source_root,
    ) by {
        let id = w.overlays[s].files[k].base_source_root;
        assert(sessions.to_set().contains(s));
        let m = sessions.index_of(s);
        lemma_stand_in(w.overlays, next, roots, sessions.len() as int, m, k);
        let j = choose|j: int| 0 <= j < behind.len() && stands_for(#[trigger] behind[j], w.overlays[s], roots, id);
        assert(r[disk + j] == behind[j]);
    }
}

proof fn lemma_source_of_root(overlays: Map<u64, OverlayView>, next: u32, roots: Seq<RootView>, n: int, i: int)
    requires
        overlays_sound(overlays, next),
        0 <= n <= sorted_keys::<u64>(overlays.dom()).len(),
        0 <= i < session_roots_to(overlays, roots, n).len(),
    ensures
        has_source(overlays, roots, session_roots_to(overlays, roots, n)[i]),
    decreases n,
{
    if n > 0 {
        let sessions = sorted_keys::<u64>(overlays.dom());
        let a = session_roots_to(overlays, roots, n - 1);
        if i < a.len() {
            lemma_source_of_root(overlays, next, roots, n - 1, i);
        } else {
            lemma_sorted_exists::<u64>(overlays.dom());
            let session = sessions[n - 1];
            assert(sessions.to_set().contains(session));
            let overlay = overlays[session];
            let ids = sorted_keys::<u32>(overlaid_roots(overlay));
            lemma_overlaid_roots_finite(overlay);
            lemma_sorted_exists::<u32>(overlaid_roots(overlay));
            lemma_overlay_roots_to(overlay, roots, ids.len() as int);
            let j = i - a.len();
            assert(overlay_roots(overlay, roots)[j] == overlay_root(overlay, ids[j], roots[ids[j] as int].is_library));
            assert(ids.to_set().contains(ids[j]));
            let k = choose|k: Seq<char>| #[trigger] overlay.files.contains_key(k) && overlay.files[k].base_source_root == ids[j];
            assert(overlays[session].files.contains_key(k));
        }
    }
}

proof fn lemma_stand_in(overlays: Map<u64, OverlayView>, next: u32, roots: Seq<RootView>, n: int, m: int, k: Seq<char>)
    requires
        overlays_sound(overlays, next),
        0 <= m < n <= sorted_keys::<u64>(overlays.dom()).len(),
        overlays[sorted_keys::<u64>(overlays.dom())[m]].files.contains_key(k),
    ensures
        has_stand_in(
            session_roots_to(overlays, roots, n),
            0,
            overlays[sorted_keys::<u64>(overlays.dom())[m]],
            roots,
            overlays[sorted_keys::<u64>(overlays.dom())[m]].files[k].base_source_root,
        ),
    decreases n,
{
    let sessions = sorted_keys::<u64>(overlays.dom());
    let overlay = overlays[sessions[m]];
    let id = overlay.files[k].base_source_root;
    let a = session_roots_to(overlays, roots, n - 1);
    let r = session_roots_to(overlays, roots, n);
    if m < n - 1 {
        lemma_stand_in(overlays, next, roots, n - 1, m, k);
        let i = choose|i: int| 0 <= i < a.len() && stands_for(#[trigger] a[i], overlay, roots, id);
        assert(r[i] == a[i]);
    } else {
        lemma_sorted_exists::<u64>(overlays.dom());
        assert(sessions.to_set().contains(sessions[m]));
        let ids = sorted_keys::<u32>(overlaid_roots(overlay));
        lemma_overlaid_roots_finite(overlay);
        lemma_sorted_exists::<u32>(overlaid_roots(overlay));
        lemma_overlay_roots_to(overlay, roots, ids.len() as int);
        assert(overlaid_roots(overlay).contains(id));
        assert(ids.to_set().contains(id));
        let i = ids.index_of(id);
        assert(overlay_roots(overlay, roots)[i] == overlay_root(overlay, id, roots[id as int].is_library));
        assert(r[a.len() + i] == overlay_roots(overlay, roots)[i]);
    }
}

} // verus!
