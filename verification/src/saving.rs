//! What becomes of a saved file: every session that does not have it open sees the saved text.
use crate::base::{base_file, LoadedView};
use crate::commit::{lemma_nothing_noted, nothing_noted};
use crate::copies::disk_text;
use crate::disk::{
    all_changes_fit, change_fits, concerns_any, lemma_noted_one, lemma_number_given, noted_to, number_for,
    FileChangeView, NotedView,
};
use crate::disk_roots::{
    any_overlaid, finished, finite_entries, fitting, lemma_rerooted, rerooted, rerooted_to, workspace_roots, NewRootsView,
};
use crate::inputs::InputsView;
use crate::ordered::{lemma_ascending_distinct, lemma_sorted_exists, sorted_keys};
use crate::overlay::OverlayView;
use crate::overlay_build::{built, by_path, lemma_built, lemma_by_path, lemma_fresh_total};
use crate::overlay_files::{lemma_prepared_known, opened, prepared, OpenFileView, PreparedView};
use crate::own_files::{
    law_crates_stay_rooted_on_disk, law_needed_files_are_on_disk, law_path_in_view_has_one_number, lemma_prepared_unopened,
    rooted_on_disk,
};
use crate::privacy::{
    law_edits_are_private, law_sync_keeps_the_world_sound, lemma_base_file, lemma_disk_texts_kept, next_after,
    room_for, seen_text,
};
use crate::recone::{all_recones_fit, recone_fits, reconed_to, reopened, reopened_to};
use crate::settled::paths_differ;
use crate::sync::{new_overlay, overlay_of, overlay_or_empty, synced, to_sync, wanted};
use crate::world::{lemma_base_file_number, WorldView, ROOT_LIMIT};
use vstd::prelude::*;

verus! {

/// The world once a list of changes to files on disk is in it, with the source roots that the
/// workspaces then have.
pub open spec fn saved(w: WorldView, next: u32, indexes: Seq<usize>, files: Seq<FileChangeView>, list: Seq<NewRootsView>) -> WorldView {
    let s = noted_to(w, next, indexes, files, files.len() as int);
    rerooted(s.world, list, s.texts)
}

/// The last text that is noted for a path.
spec fn holds_text(s: NotedView, key: Seq<char>, text: Option<Seq<char>>) -> bool {
    &&& s.world.file_ids.contains_key(key)
    &&& exists|j: int| #![trigger s.texts[j]]
        0 <= j < s.texts.len() && s.texts[j] == (s.world.file_ids[key], text) && last_of(s.texts, j)
}

spec fn last_of(texts: Seq<(u32, Option<Seq<char>>)>, j: int) -> bool {
    forall|x: int| j < x < texts.len() ==> (#[trigger] texts[x]).0 != texts[j].0
}

pub proof fn lemma_noted_wf(w: WorldView, next: u32, indexes: Seq<usize>, files: Seq<FileChangeView>, n: int)
    requires
        w.wf(next),
        w.base.workspaces.len() <= usize::MAX,
        all_changes_fit(w, next, indexes, files),
        0 <= n <= files.len(),
    ensures
        noted_to(w, next, indexes, files, n).wf(),
    decreases n,
{
    if n <= 0 {
        lemma_nothing_noted(w, next);
        assert(noted_to(w, next, indexes, files, n) == nothing_noted(w, next));
    } else {
        lemma_noted_wf(w, next, indexes, files, n - 1);
        assert(change_fits(noted_to(w, next, indexes, files, n - 1), indexes, files[n - 1]));
        lemma_noted_one(noted_to(w, next, indexes, files, n - 1), indexes, files[n - 1]);
    }
}

/// The text of a change stays the last one noted for its path while changes of other paths follow.
proof fn lemma_saved_text(w: WorldView, next: u32, indexes: Seq<usize>, files: Seq<FileChangeView>, at: int, n: int)
    requires
        w.wf(next),
        w.base.workspaces.len() <= usize::MAX,
        all_changes_fit(w, next, indexes, files),
        0 <= at < n <= files.len(),
        forall|j: int| at < j < files.len() ==> (#[trigger] files[j]).path.key != files[at].path.key,
        concerns_any(noted_to(w, next, indexes, files, at).world.base.workspaces, indexes, files[at]),
    ensures
        holds_text(noted_to(w, next, indexes, files, n), files[at].path.key, files[at].text),
    decreases n,
{
    let key = files[at].path.key;
    let before = noted_to(w, next, indexes, files, n - 1);
    let s = noted_to(w, next, indexes, files, n);
    lemma_noted_wf(w, next, indexes, files, n - 1);
    lemma_noted_wf(w, next, indexes, files, n);
    if n - 1 == at {
        lemma_number_given(before, indexes, files[at]);
        let j = before.texts.len() as int;
        assert(s.texts[j] == (s.world.file_ids[key], files[at].text));
        assert(last_of(s.texts, j));
    } else {
        lemma_saved_text(w, next, indexes, files, at, n - 1);
        let file = files[n - 1];
        assert(file.path.key != key);
        if concerns_any(before.world.base.workspaces, indexes, file) {
            lemma_number_given(before, indexes, file);
            let number = before.world.file_ids[key];
            let j = choose|j: int| #![trigger before.texts[j]]
                0 <= j < before.texts.len() && before.texts[j] == (number, files[at].text) && last_of(before.texts, j);
            assert(s.texts[j] == before.texts[j]);
            assert(s.world.file_ids[key] == number);
            let other = number_for(before.world, before.next, file.path.key);
            assert(s.world.file_ids.contains_key(file.path.key) && s.world.file_ids[file.path.key] == other);
            assert(other != number);
            assert forall|x: int| j < x < s.texts.len() implies (#[trigger] s.texts[x]).0 != s.texts[j].0 by {
                if x < before.texts.len() {
                    assert(s.texts[x] == before.texts[x]);
                }
            }
            assert(last_of(s.texts, j));
        }
    }
}

/// Of several texts for a file the last counts.
proof fn lemma_last_text(inputs: InputsView, texts: Seq<(u32, Option<Seq<char>>)>, j: int, text: Seq<char>)
    requires
        0 <= j < texts.len(),
        texts[j].1 == Some(text),
        last_of(texts, j),
    ensures
        inputs.with_texts(texts).texts[texts[j].0] == text,
    decreases texts.len(),
{
    let front = texts.drop_last();
    if j < texts.len() - 1 {
        assert(texts[texts.len() - 1].0 != texts[j].0);
        assert(front[j] == texts[j]);
        assert(last_of(front, j)) by {
            assert forall|x: int| j < x < front.len() implies (#[trigger] front[x]).0 != front[j].0 by {
                assert(front[x] == texts[x]);
            }
        }
        lemma_last_text(inputs, front, j, text);
    }
}

/// Paths that the workspaces have stay with them while changes are noted.
proof fn lemma_paths_stay(w: WorldView, next: u32, indexes: Seq<usize>, files: Seq<FileChangeView>, n: int)
    requires
        0 <= n <= files.len(),
    ensures
        noted_to(w, next, indexes, files, n).world.base.workspaces.len() == w.base.workspaces.len(),
        forall|i: int, k: Seq<char>|
            0 <= i < w.base.workspaces.len() && #[trigger] w.base.workspaces[i].files.by_path.contains_key(k) ==> noted_to(
                w,
                next,
                indexes,
                files,
                n,
            ).world.base.workspaces[i].files.by_path.contains_key(k),
        noted_to(w, next, indexes, files, n).world.overlays == w.overlays,
    decreases n,
{
    if n > 0 {
        lemma_paths_stay(w, next, indexes, files, n - 1);
        let before = noted_to(w, next, indexes, files, n - 1).world.base.workspaces;
        let after = noted_to(w, next, indexes, files, n).world.base.workspaces;
        assert forall|i: int, k: Seq<char>|
            0 <= i < w.base.workspaces.len() && #[trigger] w.base.workspaces[i].files.by_path.contains_key(k) implies after[i].files.by_path.contains_key(k) by {
            assert(before[i].files.by_path.contains_key(k));
        }
    }
}

proof fn lemma_view_stays(before: Seq<LoadedView>, after: Seq<LoadedView>, indexes: Seq<usize>, key: Seq<char>)
    requires
        before.len() == after.len(),
        forall|i: int|
            0 <= i < before.len() && (#[trigger] before[i]).files.by_path.contains_key(key) ==> after[i].files.by_path.contains_key(key),
        base_file(before, indexes, key) is Some,
    ensures
        base_file(after, indexes, key) is Some,
    decreases indexes.len(),
{
    if indexes.len() > 0 {
        let i = indexes[0] as int;
        if i < before.len() && before[i].files.file_id(key) is Some {
            assert(before[i].files.by_path.contains_key(key));
        } else {
            lemma_view_stays(before, after, indexes.drop_first(), key);
        }
    }
}

proof fn lemma_same_view(a: Seq<LoadedView>, b: Seq<LoadedView>, indexes: Seq<usize>, key: Seq<char>)
    requires
        a.len() == b.len(),
        forall|i: int| 0 <= i < a.len() ==> (#[trigger] a[i]).files == b[i].files,
    ensures
        base_file(a, indexes, key) == base_file(b, indexes, key),
    decreases indexes.len(),
{
    if indexes.len() > 0 {
        let i = indexes[0] as int;
        if i < a.len() {
            assert(a[i].files == b[i].files);
        }
        lemma_same_view(a, b, indexes.drop_first(), key);
    }
}

pub proof fn lemma_rerooted_files(ws: Seq<LoadedView>, list: Seq<NewRootsView>, n: int)
    requires
        0 <= n <= list.len(),
        forall|e: int| 0 <= e < list.len() ==> (#[trigger] list[e]).workspace < ws.len(),
    ensures
        rerooted_to(ws, list, n).len() == ws.len(),
        forall|i: int| 0 <= i < ws.len() ==> (#[trigger] rerooted_to(ws, list, n)[i]).files == ws[i].files,
    decreases n,
{
    if n > 0 {
        lemma_rerooted_files(ws, list, n - 1);
        let before = rerooted_to(ws, list, n - 1);
        assert(list[n - 1].workspace < ws.len());
        assert(before[list[n - 1].workspace as int].files == ws[list[n - 1].workspace as int].files);
    }
}

/// The path is in a session's view, before or after the changes.
pub open spec fn comes_into_view(
    w: WorldView,
    next: u32,
    indexes: Seq<usize>,
    files: Seq<FileChangeView>,
    other_indexes: Seq<usize>,
    key: Seq<char>,
) -> bool {
    ||| base_file(w.base.workspaces, other_indexes, key) is Some
    ||| base_file(
        noted_to(w, next, indexes, files, files.len() as int).world.base.workspaces,
        other_indexes,
        key,
    ) is Some
}

/// Once a file is saved, its text is what every session finds on disk that has the path in view: of
/// several changes to the file the last counts.
pub proof fn law_saved_text_is_seen(
    w: WorldView,
    next: u32,
    indexes: Seq<usize>,
    files: Seq<FileChangeView>,
    at: int,
    list: Seq<NewRootsView>,
    other: u64,
    other_indexes: Seq<usize>,
)
    requires
        w.wf(next),
        w.base.workspaces.len() <= usize::MAX,
        all_changes_fit(w, next, indexes, files),
        0 <= at < files.len(),
        files[at].text is Some,
        forall|j: int| at < j < files.len() ==> (#[trigger] files[j]).path.key != files[at].path.key,
        concerns_any(noted_to(w, next, indexes, files, at).world.base.workspaces, indexes, files[at]),
        ({
            let s = noted_to(w, next, indexes, files, files.len() as int);
            &&& fitting(s.world.base.workspaces, s.affected, list)
            &&& finite_entries(list)
            &&& workspace_roots(rerooted_to(s.world.base.workspaces, list, list.len() as int)).len() <= ROOT_LIMIT
        }),
        comes_into_view(w, next, indexes, files, other_indexes, files[at].path.key),
    ensures
        saved(w, next, indexes, files, list).wf(noted_to(w, next, indexes, files, files.len() as int).next),
        ({
            let r = saved(w, next, indexes, files, list);
            let number = base_file(r.base.workspaces, other_indexes, files[at].path.key);
            number is Some && r.base.inputs.texts[number->0] == files[at].text->0
        }),
        (overlay_of(w, other) matches Some(overlay) ==> !overlay.files.contains_key(files[at].path.key)) ==> seen_text(
            saved(w, next, indexes, files, list),
            other,
            other_indexes,
            files[at].path.key,
        ) == files[at].text,
{
    let key = files[at].path.key;
    let text = files[at].text->0;
    let n = files.len() as int;
    let s = noted_to(w, next, indexes, files, n);
    let r = saved(w, next, indexes, files, list);
    lemma_noted_wf(w, next, indexes, files, n);
    lemma_saved_text(w, next, indexes, files, at, n);
    lemma_rerooted(s, list);
    let number = s.world.file_ids[key];
    let j = choose|j: int| #![trigger s.texts[j]]
        0 <= j < s.texts.len() && s.texts[j] == (number, files[at].text) && last_of(s.texts, j);
    let middle = if crate::disk_roots::roots_differ_to(s.world.base.workspaces, list, list.len() as int) {
        s.world.base.inputs.with_roots(workspace_roots(r.base.workspaces))
    } else {
        s.world.base.inputs
    };
    lemma_last_text(middle, s.texts, j, text);
    assert(r.base.inputs.texts[number] == text);
    lemma_paths_stay(w, next, indexes, files, n);
    if base_file(w.base.workspaces, other_indexes, key) is Some {
        assert forall|i: int| 0 <= i < w.base.workspaces.len() && (#[trigger] w.base.workspaces[i]).files.by_path.contains_key(key) implies s.world.base.workspaces[i].files.by_path.contains_key(key) by {}
        lemma_view_stays(w.base.workspaces, s.world.base.workspaces, other_indexes, key);
    }
    lemma_rerooted_files(s.world.base.workspaces, list, list.len() as int);
    lemma_same_view(r.base.workspaces, s.world.base.workspaces, other_indexes, key);
    lemma_base_file_number(r.file_ids, r.base.workspaces, other_indexes, key);
}

/// The session has the path open.
pub open spec fn has_open(overlay: OverlayView, key: Seq<char>) -> bool {
    exists|k: Seq<char>| #[trigger] overlay.open_files.contains_key(k) && overlay.files[k].display_path.key == key
}

proof fn lemma_reopened_paths(overlay: OverlayView, classes: Map<Seq<char>, Seq<Option<bool>>>, n: int, key: Seq<char>)
    requires
        overlay.open_files.dom().finite(),
        0 <= n <= sorted_keys::<String>(overlay.open_files.dom()).len(),
        !has_open(overlay, key),
    ensures
        reopened_to(overlay, classes, n).len() == n,
        forall|i: int| 0 <= i < n ==> (#[trigger] reopened_to(overlay, classes, n)[i]).path.key != key,
    decreases n,
{
    if n > 0 {
        lemma_reopened_paths(overlay, classes, n - 1, key);
        let keys = sorted_keys::<String>(overlay.open_files.dom());
        lemma_sorted_exists::<String>(overlay.open_files.dom());
        assert(keys.to_set().contains(keys[n - 1]));
        assert(overlay.open_files.contains_key(keys[n - 1]));
    }
}

proof fn lemma_not_opened(files: Seq<OpenFileView>, key: Seq<char>)
    requires
        forall|i: int| 0 <= i < files.len() ==> (#[trigger] files[i]).path.key != key,
    ensures
        !opened(files).contains_key(key),
    decreases files.len(),
{
    if files.len() > 0 {
        let front = files.drop_last();
        assert forall|i: int| 0 <= i < front.len() implies (#[trigger] front[i]).path.key != key by {
            assert(front[i] == files[i]);
        }
        assert(files[files.len() - 1].path.key != key);
        lemma_not_opened(front, key);
    }
}

/// What a session finds under a path that it does not have open, once its overlay is made anew: the
/// text on disk, in a copy of its own or not.
pub proof fn lemma_remade(
    w: WorldView,
    session: u64,
    files: Seq<PreparedView>,
    force: bool,
    next: u32,
    indexes: Seq<usize>,
    key: Seq<char>,
    view: Seq<usize>,
    text: Seq<char>,
)
    requires
        w.wf(next),
        to_sync(w, session, indexes, files, force),
        crate::overlay_files::known_roots(w.base, files),
        room_for(w, session, indexes, files, force, next),
        by_path(wanted(w.base, indexes, files)).contains_key(key) ==> files[by_path(files)[key] as int].text == text,
        base_file(w.base.workspaces, view, key) is Some,
        w.base.inputs.texts[base_file(w.base.workspaces, view, key)->0] == text,
    ensures
        seen_text(synced(w, session, indexes, files, force, next), session, view, key) == Some(text),
{
    let r = synced(w, session, indexes, files, force, next);
    law_sync_keeps_the_world_sound(w, session, indexes, files, force, next);
    let kept = wanted(w.base, indexes, files);
    let old = overlay_or_empty(w, session);
    lemma_fresh_total(old, kept);
    lemma_by_path(kept);
    lemma_built(old, indexes, kept, next);
    let bare = built(old, indexes, kept, next);
    let new = new_overlay(w, session, indexes, kept, next);
    assert(r.overlays.contains_key(session) && r.overlays[session] == new);
    assert(r.base.workspaces == w.base.workspaces);
    if new.files.contains_key(key) {
        assert(bare.files.contains_key(key));
        assert(by_path(kept).contains_key(key));
        assert(kept == files);
        let number = new.files[key].overlay_file;
        assert(new.files[key].text == text);
        assert(r.overlays[session].path_by_file.contains_key(number));
        assert(r.applied.contains(number));
    } else {
        lemma_base_file(w, next, view, key);
        let f = base_file(w.base.workspaces, view, key)->0;
        let i = choose|i: int| 0 <= i < w.base.workspaces.len() && #[trigger] w.base.workspaces[i].files.contains_file(f);
        lemma_disk_texts_kept(w, session, indexes, files, force, next, f);
    }
}

/// A session that has files open has the path in its workspaces, and the crates in its view are in
/// source roots on disk.
pub open spec fn sees_disk(w: WorldView, session: u64, key: Seq<char>) -> bool {
    overlay_of(w, session) matches Some(overlay) ==> overlay.open_files.dom().len() > 0 ==> {
        &&& base_file(w.base.workspaces, overlay.workspaces, key) is Some
        &&& rooted_on_disk(w, overlay.workspaces)
    }
}

/// An overlay holds no more files than numbers were given.
pub proof fn lemma_overlay_counted(overlay: OverlayView, next: u32)
    requires
        overlay.wf(),
        crate::overlay_build::numbers_below(overlay, next),
        overlay.files.dom().finite(),
    ensures
        overlay.files.dom().len() <= next,
{
    let keys = sorted_keys::<String>(overlay.files.dom());
    lemma_sorted_exists::<String>(overlay.files.dom());
    lemma_ascending_distinct::<String>(keys);
    let numbers = Seq::new(keys.len(), |i: int| overlay.files[keys[i]].overlay_file as int);
    assert forall|i: int| 0 <= i < keys.len() implies #[trigger] overlay.files.contains_key(keys[i]) && 0 <= numbers[i] < next
        && overlay.path_by_file[numbers[i] as u32] == keys[i] by {
        assert(keys.to_set().contains(keys[i]));
        assert(overlay.path_by_file.contains_key(overlay.files[keys[i]].overlay_file));
    }
    assert(numbers.no_duplicates()) by {
        assert forall|i: int, j: int| 0 <= i < j < numbers.len() implies numbers[i] != numbers[j] by {
            assert(overlay.files.contains_key(keys[i]));
            assert(overlay.files.contains_key(keys[j]));
            assert(keys[i] != keys[j]);
        }
    }
    assert(keys.no_duplicates()) by {
        assert forall|i: int, j: int| 0 <= i < j < keys.len() implies keys[i] != keys[j] by {}
    }
    keys.unique_seq_to_set();
    numbers.unique_seq_to_set();
    let range = vstd::set_lib::set_int_range(0, next as int);
    vstd::set_lib::lemma_int_range(0, next as int);
    assert(numbers.to_set().subset_of(range)) by {
        assert forall|x: int| numbers.to_set().contains(x) implies range.contains(x) by {
            let i = numbers.index_of(x);
            assert(overlay.files.contains_key(keys[i]));
        }
    }
    vstd::set_lib::lemma_len_subset(numbers.to_set(), range);
}

pub proof fn lemma_paths_counted(files: Seq<PreparedView>)
    requires
        paths_differ(files),
    ensures
        by_path(files).dom().finite(),
        by_path(files).dom().len() == files.len(),
        forall|k: Seq<char>|
            #[trigger] by_path(files).contains_key(k) ==> exists|i: int| 0 <= i < files.len() && (#[trigger] files[i]).path.key == k,
    decreases files.len(),
{
    if files.len() > 0 {
        let front = files.drop_last();
        let last = files[files.len() - 1];
        assert forall|i: int, j: int| 0 <= i < j < front.len() implies (#[trigger] front[i]).path.key != (#[trigger] front[j]).path.key by {
            assert(files[i].path.key != files[j].path.key);
        }
        lemma_paths_counted(front);
        assert(!by_path(front).contains_key(last.path.key)) by {
            if by_path(front).contains_key(last.path.key) {
                let i = choose|i: int| 0 <= i < front.len() && (#[trigger] front[i]).path.key == last.path.key;
                assert(files[i].path.key != files[files.len() - 1].path.key);
            }
        }
        assert(by_path(files).dom() =~= by_path(front).dom().insert(last.path.key));
        assert forall|k: Seq<char>| #[trigger] by_path(files).contains_key(k) implies exists|i: int|
            0 <= i < files.len() && (#[trigger] files[i]).path.key == k by {
            if k == last.path.key {
                assert(files[files.len() - 1].path.key == k);
            } else {
                assert(by_path(front).contains_key(k));
                let i = choose|i: int| 0 <= i < front.len() && (#[trigger] front[i]).path.key == k;
                assert(files[i].path.key == k);
            }
        }
    } else {
        assert(by_path(files).dom() =~= Set::empty());
    }
}

/// The files of an overlay that is made anew are no more than numbers were given.
pub proof fn lemma_remade_counted(
    w: WorldView,
    session: u64,
    files: Seq<PreparedView>,
    force: bool,
    next: u32,
    indexes: Seq<usize>,
)
    requires
        w.wf(next),
        to_sync(w, session, indexes, files, force),
        crate::overlay_files::known_roots(w.base, files),
        room_for(w, session, indexes, files, force, next),
        paths_differ(files),
        wanted(w.base, indexes, files) == files,
    ensures
        files.len() <= u32::MAX,
{
    let r = synced(w, session, indexes, files, force, next);
    law_sync_keeps_the_world_sound(w, session, indexes, files, force, next);
    let old = overlay_or_empty(w, session);
    lemma_fresh_total(old, files);
    lemma_built(old, indexes, files, next);
    let new = new_overlay(w, session, indexes, files, next);
    assert(r.overlays.contains_key(session) && r.overlays[session] == new);
    lemma_overlay_counted(new, next_after(w, session, indexes, files, force, next) as u32);
    lemma_paths_counted(files);
}

proof fn lemma_reconed_seen(
    w: WorldView,
    next: u32,
    classes: Map<Seq<char>, Seq<Option<bool>>>,
    n: int,
    session: u64,
    view: Seq<usize>,
    key: Seq<char>,
)
    requires
        w.wf(next),
        all_recones_fit(w, next, classes),
        0 <= n <= sorted_keys::<u64>(w.overlays.dom()).len(),
        overlay_of(w, session) matches Some(overlay) ==> !has_open(overlay, key),
        sees_disk(w, session, key),
        base_file(w.base.workspaces, view, key) is Some,
    ensures
        ({
            let r = reconed_to(w, next, classes, n);
            let f = base_file(w.base.workspaces, view, key)->0;
            &&& r.0.wf(r.1)
            &&& r.0.base.workspaces == w.base.workspaces
            &&& r.0.file_ids == w.file_ids
            &&& r.0.base.inputs.texts[f] == w.base.inputs.texts[f]
            &&& forall|ix: Seq<usize>| rooted_on_disk(w, ix) ==> #[trigger] rooted_on_disk(r.0, ix)
            &&& (forall|m: int| 0 <= m < n ==> #[trigger] sorted_keys::<u64>(w.overlays.dom())[m] != session) ==> overlay_of(r.0, session)
                == overlay_of(w, session)
            &&& (exists|m: int| 0 <= m < n && #[trigger] sorted_keys::<u64>(w.overlays.dom())[m] == session) ==> seen_text(
                r.0,
                session,
                view,
                key,
            ) == Some(w.base.inputs.texts[f])
        }),
    decreases n,
{
    let f = base_file(w.base.workspaces, view, key)->0;
    let sessions = sorted_keys::<u64>(w.overlays.dom());
    lemma_sorted_exists::<u64>(w.overlays.dom());
    lemma_ascending_distinct::<u64>(sessions);
    if n > 0 {
        lemma_reconed_seen(w, next, classes, n - 1, session, view, key);
        let before = reconed_to(w, next, classes, n - 1);
        let r = reconed_to(w, next, classes, n);
        let s = sessions[n - 1];
        assert(sessions.to_set().contains(s));
        assert(w.overlays.contains_key(s));
        let indexes = w.overlays[s].workspaces;
        let open = reopened(w.overlays[s], classes);
        let files = prepared(before.0.base, indexes, open);
        assert(recone_fits(w, next, classes, n - 1));
        lemma_prepared_known(before.0.base, indexes, open);
        law_sync_keeps_the_world_sound(before.0, s, indexes, files, true, before.1);
        lemma_base_file(w, next, view, key);
        let i = choose|i: int| 0 <= i < w.base.workspaces.len() && #[trigger] w.base.workspaces[i].files.contains_file(f);
        assert(before.0.base.workspaces[i].files.contains_file(f));
        lemma_disk_texts_kept(before.0, s, indexes, files, true, before.1, f);
        assert forall|ix: Seq<usize>| rooted_on_disk(w, ix) implies #[trigger] rooted_on_disk(r.0, ix) by {
            law_crates_stay_rooted_on_disk(before.0, s, indexes, files, true, before.1, ix);
        }
        if s == session {
            assert(w.overlays[s].open_files.dom().subset_of(w.overlays[s].files.dom()));
            vstd::set_lib::lemma_len_subset(w.overlays[s].open_files.dom(), w.overlays[s].files.dom());
            let count = sorted_keys::<String>(w.overlays[s].open_files.dom()).len() as int;
            lemma_reopened_paths(w.overlays[s], classes, count, key);
            lemma_not_opened(open, key);
            lemma_sorted_exists::<String>(w.overlays[s].open_files.dom());
            if w.overlays[s].open_files.dom().len() > 0 {
                law_path_in_view_has_one_number(before.0, before.1, indexes, key);
                lemma_overlay_counted(w.overlays[s], next);
                let names = sorted_keys::<String>(w.overlays[s].open_files.dom());
                lemma_ascending_distinct::<String>(names);
                assert(names.no_duplicates());
                names.unique_seq_to_set();
                assert(open.len() <= next);
                law_needed_files_are_on_disk(before.0, before.1, indexes, open);
                if wanted(before.0.base, indexes, files) == files {
                    lemma_remade_counted(before.0, s, files, true, before.1, indexes);
                    lemma_prepared_unopened(before.0.base, indexes, open, key);
                }
                lemma_base_file_number(before.0.file_ids, before.0.base.workspaces, indexes, key);
                lemma_base_file_number(before.0.file_ids, before.0.base.workspaces, view, key);
            } else {
                assert(w.overlays[s].open_files.dom() =~= Set::empty());
                assert(count == 0) by {
                    if count > 0 {
                        let keys = sorted_keys::<String>(w.overlays[s].open_files.dom());
                        assert(keys.to_set().contains(keys[0]));
                    }
                }
                assert(open =~= Seq::empty());
                lemma_nothing_prepared(before.0.base, indexes, open);
            }
            lemma_remade(before.0, s, files, true, before.1, indexes, key, view, w.base.inputs.texts[f]);
            assert forall|m: int| 0 <= m < n - 1 implies #[trigger] sessions[m] != session by {
                assert(sessions[m] != sessions[n - 1]);
            }
        } else {
            law_edits_are_private(before.0, s, indexes, files, true, before.1, session, view, key);
            if exists|m: int| 0 <= m < n && #[trigger] sessions[m] == session {
                let m = choose|m: int| 0 <= m < n && #[trigger] sessions[m] == session;
                assert(m < n - 1);
                assert(sessions[m] == session);
            }
        }
    }
}

proof fn lemma_nothing_prepared(base: crate::base::BaseView, indexes: Seq<usize>, files: Seq<OpenFileView>)
    requires
        files.len() == 0,
    ensures
        prepared(base, indexes, files).len() == 0,
        by_path(prepared(base, indexes, files)).dom() == Set::<Seq<char>>::empty(),
{
    assert(opened(files) =~= Map::empty());
    lemma_sorted_exists::<String>(opened(files).dom());
    let keys = sorted_keys::<String>(opened(files).dom());
    assert(keys.len() == 0) by {
        if keys.len() > 0 {
            assert(keys.to_set().contains(keys[0]));
        }
    }
    let required = crate::overlay_files::all_required(base, indexes, files);
    assert(required =~= Map::empty());
    lemma_sorted_exists::<String>(required.dom());
    let names = sorted_keys::<String>(required.dom());
    assert(names.len() == 0) by {
        if names.len() > 0 {
            assert(names.to_set().contains(names[0]));
        }
    }
    assert(by_path(prepared(base, indexes, files)).dom() =~= Set::empty());
}

/// Once the changes on disk are dealt with to the end, every session that has the path in view and
/// does not have it open sees the text on disk, also where it has other files open and so a copy of
/// its own of the file.
pub proof fn law_saved_text_reaches_all_sessions(
    w: WorldView,
    next: u32,
    classes: Map<Seq<char>, Seq<Option<bool>>>,
    session: u64,
    view: Seq<usize>,
    key: Seq<char>,
)
    requires
        w.wf(next),
        any_overlaid(w) ==> all_recones_fit(w, next, classes),
        overlay_of(w, session) matches Some(overlay) ==> !has_open(overlay, key),
        sees_disk(w, session, key),
        base_file(w.base.workspaces, view, key) is Some,
    ensures
        seen_text(finished(w, next, classes, true).0, session, view, key) == Some(
            w.base.inputs.texts[base_file(w.base.workspaces, view, key)->0],
        ),
        disk_text(finished(w, next, classes, true).0, view, key) == disk_text(w, view, key),
{
    let sessions = sorted_keys::<u64>(w.overlays.dom());
    lemma_sorted_exists::<u64>(w.overlays.dom());
    if any_overlaid(w) {
        lemma_reconed_seen(w, next, classes, sessions.len() as int, session, view, key);
        if w.overlays.contains_key(session) {
            assert(sessions.to_set().contains(session));
            let m = sessions.index_of(session);
            assert(sessions[m] == session);
        } else {
            assert forall|m: int| 0 <= m < sessions.len() implies #[trigger] sessions[m] != session by {
                assert(sessions.to_set().contains(sessions[m]));
            }
        }
    } else if w.overlays.contains_key(session) {
        assert(w.overlays[session].files == Map::<Seq<char>, crate::overlay::OverlayFileView>::empty());
    }
}

} // verus!
