//! Making a session's overlay out of the files it needs.
use crate::file_ids::SharedFileIds;
use crate::fx::fx_remove;
use crate::ordered::{ascending, lemma_ascending_distinct, lemma_sorted_exists, lemma_sorted_keys, listed, sorted_keys, OrderedMap};
use crate::overlay::{ActiveOverlayFile, ActiveSessionOverlay, OverlayFileView, OverlayView};
use crate::overlay_files::{prepared_views, PreparedOverlayFile, PreparedView};
use crate::shared::Replica;
use crate::view::copy_indexes;
use rustc_hash::FxHashSet;
use vstd::prelude::*;

verus! {

/// The files by canonical path: of two with one path the later counts.
pub open spec fn by_path(files: Seq<PreparedView>) -> Map<Seq<char>, usize>
    decreases files.len(),
{
    if files.len() == 0 {
        Map::empty()
    } else {
        by_path(files.drop_last()).insert(files.last().path.key, (files.len() - 1) as usize)
    }
}

/// How many of the first `n` paths are new to the overlay.
pub open spec fn fresh_before(old: OverlayView, keys: Seq<Seq<char>>, n: int) -> int
    decreases n,
{
    if n <= 0 {
        0
    } else {
        fresh_before(old, keys, n - 1) + (if old.files.contains_key(keys[n - 1]) {
            0int
        } else {
            1
        })
    }
}

/// How many files are new to the overlay, and need numbers.
pub open spec fn fresh_total(old: OverlayView, files: Seq<PreparedView>) -> int {
    let keys = sorted_keys::<String>(by_path(files).dom());
    fresh_before(old, keys, keys.len() as int)
}

/// The number of the file at the `j`th path: the one it has, or the next that is free.
pub open spec fn number_at(old: OverlayView, keys: Seq<Seq<char>>, next: u32, j: int) -> u32 {
    if old.files.contains_key(keys[j]) {
        old.files[keys[j]].overlay_file
    } else {
        (next + fresh_before(old, keys, j)) as u32
    }
}

pub open spec fn overlay_entry(file: PreparedView, number: u32) -> OverlayFileView {
    OverlayFileView {
        overlay_file: number,
        base_source_root: file.base_source_root,
        path: file.path,
        display_path: file.display_path,
        text: file.text,
        line_endings: file.line_endings,
    }
}

/// The overlay with one file more.
pub open spec fn with_file(overlay: OverlayView, key: Seq<char>, file: PreparedView, number: u32) -> OverlayView {
    OverlayView {
        open_files: if file.is_open {
            overlay.open_files.insert(key, file.text)
        } else {
            overlay.open_files
        },
        path_by_file: overlay.path_by_file.insert(number, key),
        files: overlay.files.insert(key, overlay_entry(file, number)),
        ..overlay
    }
}

/// The overlay that holds the files at the first `n` paths, its crates still to be found.
pub open spec fn built_to(old: OverlayView, workspaces: Seq<usize>, files: Seq<PreparedView>, next: u32, n: int) -> OverlayView
    decreases n,
{
    let m = by_path(files);
    let keys = sorted_keys::<String>(m.dom());
    if n <= 0 {
        OverlayView { workspaces, ..OverlayView::empty() }
    } else {
        with_file(
            built_to(old, workspaces, files, next, n - 1),
            keys[n - 1],
            files[m[keys[n - 1]] as int],
            number_at(old, keys, next, n - 1),
        )
    }
}

/// The overlay that holds the given files in place of the old one, its crates still to be found.
pub open spec fn built(old: OverlayView, workspaces: Seq<usize>, files: Seq<PreparedView>, next: u32) -> OverlayView {
    built_to(old, workspaces, files, next, sorted_keys::<String>(by_path(files).dom()).len() as int)
}

/// The applied files without those, at the first `n` paths, whose text is another now.
pub open spec fn still_applied_to(applied: Set<u32>, old: OverlayView, files: Seq<PreparedView>, n: int) -> Set<u32>
    decreases n,
{
    let m = by_path(files);
    let key = sorted_keys::<String>(m.dom())[n - 1];
    if n <= 0 {
        applied
    } else {
        let before = still_applied_to(applied, old, files, n - 1);
        if old.files.contains_key(key) && old.files[key].text != files[m[key] as int].text {
            before.remove(old.files[key].overlay_file)
        } else {
            before
        }
    }
}

/// The applied files without those whose text is another now.
pub open spec fn still_applied(applied: Set<u32>, old: OverlayView, files: Seq<PreparedView>) -> Set<u32> {
    still_applied_to(applied, old, files, sorted_keys::<String>(by_path(files).dom()).len() as int)
}

/// The numbers of the old files that are not kept, by ascending path, up to the `n`th path.
pub open spec fn dropped(old: OverlayView, kept: Set<Seq<char>>, n: int) -> Seq<u32>
    decreases n,
{
    if n <= 0 {
        Seq::empty()
    } else {
        let key = sorted_keys::<String>(old.files.dom())[n - 1];
        let before = dropped(old, kept, n - 1);
        if kept.contains(key) {
            before
        } else {
            before.push(old.files[key].overlay_file)
        }
    }
}

pub open spec fn all_dropped(old: OverlayView, files: Seq<PreparedView>) -> Seq<u32> {
    dropped(old, by_path(files).dom(), sorted_keys::<String>(old.files.dom()).len() as int)
}

pub open spec fn numbers_below(overlay: OverlayView, next: u32) -> bool {
    forall|f: u32| #[trigger] overlay.path_by_file.contains_key(f) ==> f < next
}

proof fn lemma_fresh_bounds(old: OverlayView, keys: Seq<Seq<char>>, i: int, j: int)
    requires
        0 <= i <= j,
    ensures
        0 <= fresh_before(old, keys, i) <= fresh_before(old, keys, j) <= j,
        i < j && !old.files.contains_key(keys[i]) ==> fresh_before(old, keys, i) < fresh_before(old, keys, j),
    decreases j,
{
    if i < j {
        lemma_fresh_bounds(old, keys, i, j - 1);
    } else if j > 0 {
        lemma_fresh_bounds(old, keys, j - 1, j - 1);
    }
}

/// The count of files that need numbers is not negative, and none without files.
pub proof fn lemma_fresh_total(old: OverlayView, files: Seq<PreparedView>)
    ensures
        0 <= fresh_total(old, files),
        files.len() == 0 ==> fresh_total(old, files) == 0,
{
    let keys = sorted_keys::<String>(by_path(files).dom());
    lemma_fresh_bounds(old, keys, 0, keys.len() as int);
    if files.len() == 0 {
        lemma_sorted_exists::<String>(by_path(files).dom());
        if keys.len() > 0 {
            assert(keys.to_set().contains(keys[0]));
        }
    }
}

proof fn lemma_numbers_distinct(old: OverlayView, keys: Seq<Seq<char>>, next: u32, i: int, j: int)
    requires
        old.wf(),
        numbers_below(old, next),
        ascending::<String>(keys),
        0 <= i < keys.len(),
        0 <= j < keys.len(),
        next + fresh_before(old, keys, keys.len() as int) <= u32::MAX,
        number_at(old, keys, next, i) == number_at(old, keys, next, j),
    ensures
        i == j,
{
    lemma_ascending_distinct::<String>(keys);
    lemma_fresh_bounds(old, keys, 0, i);
    lemma_fresh_bounds(old, keys, 0, j);
    lemma_fresh_bounds(old, keys, i, keys.len() as int);
    lemma_fresh_bounds(old, keys, j, keys.len() as int);
    let (a, b) = (old.files.contains_key(keys[i]), old.files.contains_key(keys[j]));
    if a {
        assert(old.path_by_file.contains_key(old.files[keys[i]].overlay_file));
    }
    if b {
        assert(old.path_by_file.contains_key(old.files[keys[j]].overlay_file));
    }
    if !a && !b {
        if i < j {
            lemma_fresh_bounds(old, keys, i, j);
        }
        if j < i {
            lemma_fresh_bounds(old, keys, j, i);
        }
    }
}

proof fn lemma_built_to(old: OverlayView, workspaces: Seq<usize>, files: Seq<PreparedView>, next: u32, n: int)
    requires
        old.wf(),
        numbers_below(old, next),
        ascending::<String>(sorted_keys::<String>(by_path(files).dom())),
        0 <= n <= sorted_keys::<String>(by_path(files).dom()).len(),
        next + fresh_total(old, files) <= u32::MAX,
    ensures
        ({
            let keys = sorted_keys::<String>(by_path(files).dom());
            let r = built_to(old, workspaces, files, next, n);
            &&& r.wf()
            &&& forall|k: Seq<char>| #[trigger] r.files.contains_key(k) <==> keys.take(n).contains(k)
            &&& forall|f: u32|
                #[trigger] r.path_by_file.contains_key(f) ==> exists|j: int|
                    0 <= j < n && f == #[trigger] number_at(old, keys, next, j) && r.path_by_file[f] == keys[j]
            &&& numbers_below(r, (next + fresh_before(old, keys, n)) as u32)
            &&& forall|f: u32| #[trigger] r.path_by_file.contains_key(f) ==> old.path_by_file.contains_key(f) || f >= next
            &&& r.files.dom().finite()
            &&& r.path_by_file.dom().finite()
            &&& forall|j: int|
                0 <= j < n ==> r.files[#[trigger] keys[j]] == overlay_entry(
                    files[by_path(files)[keys[j]] as int],
                    number_at(old, keys, next, j),
                )
            &&& forall|k: Seq<char>|
                #[trigger] r.open_files.contains_key(k) <==> keys.take(n).contains(k) && files[by_path(files)[k] as int].is_open
            &&& r.workspaces == workspaces
        }),
    decreases n,
{
    let m = by_path(files);
    let keys = sorted_keys::<String>(m.dom());
    let r = built_to(old, workspaces, files, next, n);
    lemma_fresh_bounds(old, keys, 0, n);
    if n > 0 {
        lemma_built_to(old, workspaces, files, next, n - 1);
        lemma_fresh_bounds(old, keys, n - 1, n);
        lemma_fresh_bounds(old, keys, n, keys.len() as int);
        let before = built_to(old, workspaces, files, next, n - 1);
        let key = keys[n - 1];
        let number = number_at(old, keys, next, n - 1);
        assert(!before.files.contains_key(key)) by {
            if keys.take(n - 1).contains(key) {
                let j = keys.take(n - 1).index_of(key);
                lemma_ascending_distinct::<String>(keys);
                assert(keys[j] == keys[n - 1]);
            }
        }
        assert(!before.path_by_file.contains_key(number)) by {
            if before.path_by_file.contains_key(number) {
                let j = choose|j: int|
                    0 <= j < n - 1 && number == #[trigger] number_at(old, keys, next, j) && before.path_by_file[number] == keys[j];
                lemma_numbers_distinct(old, keys, next, j, n - 1);
            }
        }
        assert forall|k: Seq<char>| #[trigger] r.files.contains_key(k) <==> keys.take(n).contains(k) by {
            assert(keys.take(n)[n - 1] == key);
            if keys.take(n - 1).contains(k) {
                let j = keys.take(n - 1).index_of(k);
                assert(keys.take(n)[j] == k);
            }
            if keys.take(n).contains(k) && k != key {
                let j = keys.take(n).index_of(k);
                assert(keys.take(n - 1)[j] == k);
            }
        }
        assert forall|f: u32| #[trigger] r.path_by_file.contains_key(f) implies exists|j: int|
            0 <= j < n && f == #[trigger] number_at(old, keys, next, j) && r.path_by_file[f] == keys[j] by {
            if f == number {
                assert(f == number_at(old, keys, next, n - 1));
            } else {
                assert(before.path_by_file.contains_key(f));
                let j = choose|j: int|
                    0 <= j < n - 1 && f == #[trigger] number_at(old, keys, next, j) && before.path_by_file[f] == keys[j];
                assert(f == number_at(old, keys, next, j));
            }
        }
        if old.files.contains_key(key) {
            assert(old.path_by_file.contains_key(old.files[key].overlay_file));
        }
        assert(r.wf());
        assert forall|k: Seq<char>| #[trigger] r.open_files.contains_key(k) <==> keys.take(n).contains(k) && files[m[k] as int].is_open by {
            assert(before.open_files.contains_key(k) <==> keys.take(n - 1).contains(k) && files[m[k] as int].is_open);
            assert(r.files.contains_key(k) <==> keys.take(n).contains(k));
            assert(before.files.contains_key(k) <==> keys.take(n - 1).contains(k));
        }
        assert forall|j: int| 0 <= j < n implies r.files[#[trigger] keys[j]] == overlay_entry(
            files[m[keys[j]] as int],
            number_at(old, keys, next, j),
        ) by {
            if j < n - 1 {
                lemma_ascending_distinct::<String>(keys);
                assert(keys[j] != keys[n - 1]);
            }
        }
    }
}

/// What the built overlay holds: the given files, each once, under distinct numbers. A number is
/// either one that the file had before or one that was free.
pub proof fn lemma_built(old: OverlayView, workspaces: Seq<usize>, files: Seq<PreparedView>, next: u32)
    requires
        old.wf(),
        numbers_below(old, next),
        next + fresh_total(old, files) <= u32::MAX,
    ensures
        ({
            let m = by_path(files);
            let r = built(old, workspaces, files, next);
            &&& r.wf()
            &&& r.workspaces == workspaces
            &&& r.files.dom() == m.dom()
            &&& r.path_by_file.dom().finite()
            &&& forall|f: u32|
                #[trigger] r.path_by_file.contains_key(f) ==> f < next + fresh_total(old, files) && (old.path_by_file.contains_key(f) || f >= next)
            &&& forall|k: Seq<char>|
                #[trigger] r.files.contains_key(k) ==> {
                    &&& r.files[k] == overlay_entry(files[m[k] as int], r.files[k].overlay_file)
                    &&& if old.files.contains_key(k) {
                        r.files[k].overlay_file == old.files[k].overlay_file
                    } else {
                        r.files[k].overlay_file >= next
                    }
                }
            &&& forall|k: Seq<char>| #[trigger] r.open_files.contains_key(k) <==> m.contains_key(k) && files[m[k] as int].is_open
        }),
{
    let m = by_path(files);
    let keys = sorted_keys::<String>(m.dom());
    lemma_by_path(files);
    lemma_sorted_exists::<String>(m.dom());
    let n = keys.len() as int;
    lemma_built_to(old, workspaces, files, next, n);
    lemma_fresh_bounds(old, keys, 0, n);
    assert(keys.take(n) =~= keys);
    let r = built(old, workspaces, files, next);
    assert forall|k: Seq<char>| #[trigger] keys.contains(k) <==> m.contains_key(k) by {
        assert(keys.to_set().contains(k) <==> m.dom().contains(k));
    }
    assert(r.files.dom() =~= m.dom());
    assert forall|k: Seq<char>| #[trigger] r.files.contains_key(k) implies {
        &&& r.files[k] == overlay_entry(files[m[k] as int], r.files[k].overlay_file)
        &&& if old.files.contains_key(k) {
            r.files[k].overlay_file == old.files[k].overlay_file
        } else {
            r.files[k].overlay_file >= next
        }
    } by {
        let j = keys.index_of(k);
        assert(keys[j] == k);
        lemma_fresh_bounds(old, keys, 0, j);
        lemma_fresh_bounds(old, keys, j, n);
    }
}

/// How many files the paths of a list lead to.
pub proof fn lemma_by_path(files: Seq<PreparedView>)
    ensures
        by_path(files).dom().finite(),
        by_path(files).dom().len() <= files.len(),
        forall|k: Seq<char>| #[trigger] by_path(files).contains_key(k) ==> by_path(files)[k] < files.len(),
    decreases files.len(),
{
    if files.len() > 0 {
        lemma_by_path(files.drop_last());
        let before = by_path(files.drop_last());
        assert(by_path(files).dom() =~= before.dom().insert(files.last().path.key));
        assert forall|k: Seq<char>| #[trigger] by_path(files).contains_key(k) implies by_path(files)[k] < files.len() by {
            if k != files.last().path.key {
                assert(before.contains_key(k));
            }
        }
    }
}

proof fn lemma_still_applied_to(applied: Set<u32>, old: OverlayView, files: Seq<PreparedView>, n: int)
    ensures
        forall|f: u32| #[trigger] still_applied_to(applied, old, files, n).contains(f) ==> applied.contains(f),
        forall|j: int|
            0 <= j < n ==> {
                let key = #[trigger] sorted_keys::<String>(by_path(files).dom())[j];
                old.files.contains_key(key) && old.files[key].text != files[by_path(files)[key] as int].text
                    ==> !still_applied_to(applied, old, files, n).contains(old.files[key].overlay_file)
            },
        forall|f: u32|
            applied.contains(f) && !old.path_by_file.contains_key(f) && old.wf() ==> #[trigger] still_applied_to(
                applied,
                old,
                files,
                n,
            ).contains(f),
    decreases n,
{
    if n > 0 {
        lemma_still_applied_to(applied, old, files, n - 1);
        let before = still_applied_to(applied, old, files, n - 1);
        let r = still_applied_to(applied, old, files, n);
        let key = sorted_keys::<String>(by_path(files).dom())[n - 1];
        assert forall|f: u32| #[trigger] r.contains(f) implies applied.contains(f) by {
            assert(before.contains(f));
        }
        assert forall|f: u32| applied.contains(f) && !old.path_by_file.contains_key(f) && old.wf() implies #[trigger] r.contains(f) by {
            assert(before.contains(f));
            if old.files.contains_key(key) {
                assert(old.path_by_file.contains_key(old.files[key].overlay_file));
            }
        }
    }
}

/// The files that stay applied are files that were, and their text is not another one now.
pub proof fn lemma_still_applied(applied: Set<u32>, old: OverlayView, files: Seq<PreparedView>)
    requires
        old.wf(),
    ensures
        forall|f: u32| #[trigger] still_applied(applied, old, files).contains(f) ==> applied.contains(f),
        forall|k: Seq<char>|
            #[trigger] by_path(files).contains_key(k) && old.files.contains_key(k) && old.files[k].text != files[by_path(
                files,
            )[k] as int].text ==> !still_applied(applied, old, files).contains(old.files[k].overlay_file),
        forall|f: u32|
            applied.contains(f) && !old.path_by_file.contains_key(f) ==> #[trigger] still_applied(applied, old, files).contains(f),
{
    let m = by_path(files);
    let keys = sorted_keys::<String>(m.dom());
    lemma_by_path(files);
    lemma_sorted_exists::<String>(m.dom());
    lemma_still_applied_to(applied, old, files, keys.len() as int);
    assert forall|k: Seq<char>|
        #[trigger] m.contains_key(k) && old.files.contains_key(k) && old.files[k].text != files[m[k] as int].text implies !still_applied(
        applied,
        old,
        files,
    ).contains(old.files[k].overlay_file) by {
        assert(keys.to_set().contains(k));
        let j = keys.index_of(k);
        assert(keys[j] == k);
    }
}

proof fn lemma_dropped(old: OverlayView, kept: Set<Seq<char>>, n: int)
    requires
        old.wf(),
        old.files.dom().finite(),
        0 <= n <= sorted_keys::<String>(old.files.dom()).len(),
    ensures
        forall|i: int|
            0 <= i < dropped(old, kept, n).len() ==> old.path_by_file.contains_key(#[trigger] dropped(old, kept, n)[i]) && !kept.contains(
                old.path_by_file[dropped(old, kept, n)[i]],
            ),
    decreases n,
{
    if n > 0 {
        lemma_dropped(old, kept, n - 1);
        let keys = sorted_keys::<String>(old.files.dom());
        lemma_sorted_exists::<String>(old.files.dom());
        assert(keys.to_set().contains(keys[n - 1]));
        assert(old.files.contains_key(keys[n - 1]));
        let before = dropped(old, kept, n - 1);
        let r = dropped(old, kept, n);
        assert forall|i: int| 0 <= i < r.len() implies old.path_by_file.contains_key(#[trigger] r[i]) && !kept.contains(
            old.path_by_file[r[i]],
        ) by {
            if i < before.len() {
                assert(r[i] == before[i]);
            }
        }
    }
}

/// The files that are gone were in the old overlay, and are not kept.
pub proof fn lemma_all_dropped(old: OverlayView, files: Seq<PreparedView>)
    requires
        old.wf(),
        old.files.dom().finite(),
    ensures
        forall|i: int|
            0 <= i < all_dropped(old, files).len() ==> old.path_by_file.contains_key(#[trigger] all_dropped(old, files)[i])
                && !by_path(files).contains_key(old.path_by_file[all_dropped(old, files)[i]]),
{
    lemma_dropped(old, by_path(files).dom(), sorted_keys::<String>(old.files.dom()).len() as int);
}

/// The files by canonical path.
pub fn index_by_path(files: &Vec<PreparedOverlayFile>) -> (r: OrderedMap<String, usize>)
    ensures
        r@ == by_path(prepared_views(files@)),
        forall|k: Seq<char>| #[trigger] r@.contains_key(k) ==> r@[k] < files@.len() && files@[r@[k] as int].path@.key == k,
        r@.dom().len() <= files@.len(),
{
    let ghost views = prepared_views(files@);
    let mut r: OrderedMap<String, usize> = OrderedMap::new();
    let mut i: usize = 0;
    proof {
        assert(views.take(0) =~= Seq::empty());
    }
    while i < files.len()
        invariant
            i <= files.len(),
            views == prepared_views(files@),
            r@ == by_path(views.take(i as int)),
            forall|k: Seq<char>| #[trigger] r@.contains_key(k) ==> r@[k] < i && files@[r@[k] as int].path@.key == k,
            r@.dom().finite(),
            r@.dom().len() <= i,
        decreases files.len() - i,
    {
        let ghost before = r@;
        r.insert(files[i].path.key.clone(), i);
        proof {
            assert(views.take(i + 1).drop_last() =~= views.take(i as int));
            assert(views.take(i + 1).last() == files@[i as int]@);
            assert(r@.dom() =~= before.dom().insert(files@[i as int].path@.key));
            assert forall|k: Seq<char>| #[trigger] r@.contains_key(k) implies r@[k] < i + 1 && files@[r@[k] as int].path@.key == k by {
                if k != files@[i as int].path@.key {
                    assert(before.contains_key(k));
                }
            }
        }
        i = i + 1;
    }
    proof {
        assert(views.take(i as int) =~= views);
    }
    r
}

fn drop_files(old: &ActiveSessionOverlay, kept: &OrderedMap<String, usize>) -> (r: Vec<u32>)
    ensures
        r@ == dropped(old@, kept@.dom(), sorted_keys::<String>(old@.files.dom()).len() as int),
{
    let n = old.files_by_path.len();
    let mut r: Vec<u32> = Vec::new();
    let mut i: usize = 0;
    proof {
        lemma_sorted_keys(old.files_by_path);
        assert(old@.files.dom() =~= old.files_by_path@.dom());
    }
    while i < n
        invariant
            i <= n,
            n == old.files_by_path.keys().len(),
            listed(old.files_by_path),
            old.files_by_path.keys() == sorted_keys::<String>(old@.files.dom()),
            r@ == dropped(old@, kept@.dom(), i as int),
        decreases n - i,
    {
        proof {
            assert(old.files_by_path@.contains_key(old.files_by_path.keys()[i as int]));
        }
        if !kept.contains_key(old.files_by_path.key_at(i)) {
            r.push(old.files_by_path.value_at(i).overlay_file);
        }
        i = i + 1;
    }
    r
}

/// How many of the files are new to the overlay.
pub fn numbers_needed(old_overlay: &ActiveSessionOverlay, files: &Vec<PreparedOverlayFile>) -> (r: usize)
    ensures
        r == fresh_total(old_overlay@, prepared_views(files@)),
{
    let index = index_by_path(files);
    let n = index.len();
    let mut count: usize = 0;
    let mut i: usize = 0;
    let ghost keys = index.keys();
    proof {
        lemma_sorted_keys(index);
    }
    while i < n
        invariant
            i <= n,
            count <= i,
            n == keys.len(),
            keys == index.keys(),
            count == fresh_before(old_overlay@, keys, i as int),
        decreases n - i,
    {
        if !old_overlay.files_by_path.contains_key(index.key_at(i)) {
            count = count + 1;
        }
        i = i + 1;
    }
    count
}

/// Makes the overlay that holds the given files in place of the old one. Files that were there keep
/// their numbers, the others get new ones. The second result lists the files that are gone.
/// Files whose text is another now are no longer counted among the applied ones.
pub fn build_overlay(
    old_overlay: &ActiveSessionOverlay,
    workspaces: &Vec<usize>,
    files: &Vec<PreparedOverlayFile>,
    ids: &mut SharedFileIds,
    applied: &mut FxHashSet<u32>,
) -> (r: (ActiveSessionOverlay, Vec<u32>))
    requires
        old_overlay@.wf(),
        numbers_below(old_overlay@, old(ids).next),
        fresh_total(old_overlay@, prepared_views(files@)) <= old(ids).left(),
    ensures
        r.0@ == built(old_overlay@, workspaces@, prepared_views(files@), old(ids).next),
        r.0@.wf(),
        r.1@ == all_dropped(old_overlay@, prepared_views(files@)),
        final(applied)@ == still_applied(old(applied)@, old_overlay@, prepared_views(files@)),
        final(ids).next == old(ids).next + fresh_total(old_overlay@, prepared_views(files@)),
        old(ids).next <= final(ids).next,
        numbers_below(r.0@, final(ids).next),
        forall|f: u32|
            #[trigger] r.0@.path_by_file.contains_key(f) ==> old_overlay@.path_by_file.contains_key(f) || f >= old(ids).next,
{
    let ghost views = prepared_views(files@);
    let ghost m = by_path(views);
    let ghost start = ids.next;
    let ghost prior = old_overlay@;
    let index = index_by_path(files);
    let removed = drop_files(old_overlay, &index);
    let mut overlay = ActiveSessionOverlay::empty();
    overlay.workspaces = copy_indexes(workspaces);
    let n = index.len();
    let ghost keys = index.keys();
    let mut i: usize = 0;
    proof {
        lemma_sorted_keys(index);
        index.lemma_len();
        assert(overlay@ =~= (OverlayView { workspaces: workspaces@, ..OverlayView::empty() }));
    }
    while i < n
        invariant
            i <= n,
            n == keys.len(),
            n <= files@.len(),
            keys == index.keys(),
            keys == sorted_keys::<String>(m.dom()),
            listed(index),
            index@ == m,
            m == by_path(views),
            views == prepared_views(files@),
            forall|k: Seq<char>| #[trigger] m.contains_key(k) ==> m[k] < files@.len() && files@[m[k] as int].path@.key == k,
            prior == old_overlay@,
            start + fresh_before(prior, keys, n as int) <= crate::file_ids::MAX_ANALYZED_FILE_ID + 1,
            ids.next == start + fresh_before(prior, keys, i as int),
            overlay@ == built_to(prior, workspaces@, views, start, i as int),
            applied@ == still_applied_to(old(applied)@, prior, views, i as int),
        decreases n - i,
    {
        let key = index.key_at(i);
        let at: usize = *index.value_at(i);
        let ghost k = keys[i as int];
        let ghost before = overlay@;
        proof {
            assert(index@.contains_key(keys[i as int]));
            assert(m.contains_key(k) && m[k] == at);
            assert(views[at as int] == files@[at as int]@);
            lemma_fresh_bounds(prior, keys, 0, i as int);
            lemma_fresh_bounds(prior, keys, i as int, n as int);
        }
        let file = &files[at];
        let number: u32 = match old_overlay.files_by_path.get(key) {
            Some(old_file) => {
                let number: u32 = old_file.overlay_file;
                proof {
                    assert(prior.files.contains_key(k) && prior.files[k] == old_file@);
                }
                if !(old_file.text == file.text) {
                    fx_remove(applied, number);
                }
                number
            },
            None => {
                proof {
                    assert(!prior.files.contains_key(k));
                }
                ids.allocate()
            },
        };
        if file.is_open {
            overlay.open_files.insert(key.clone(), file.text.clone());
        }
        overlay.path_by_file.insert(number, key.clone());
        overlay.files_by_path.insert(
            key.clone(),
            ActiveOverlayFile {
                overlay_file: number,
                base_source_root: file.base_source_root,
                path: file.path.replica(),
                display_path: file.display_path.replica(),
                text: file.text.clone(),
                line_endings: file.line_endings,
            },
        );
        proof {
            assert(number == number_at(prior, keys, start, i as int));
            assert(overlay@ =~= with_file(before, k, views[at as int], number));
        }
        i = i + 1;
    }
    proof {
        lemma_built_to(prior, workspaces@, views, start, n as int);
        lemma_fresh_bounds(prior, keys, 0, n as int);
    }
    (overlay, removed)
}

} // verus!
