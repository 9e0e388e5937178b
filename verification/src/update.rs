//! Putting new texts into an overlay that already holds the files.
use crate::base::{base_file, BaseView};
use crate::overlay::{ActiveSessionOverlay, OverlayFileView, OverlayView};
use crate::overlay_files::{open_views, OpenFile, OpenFileView};
use crate::inputs::lemma_with_texts;
use crate::privacy::{lemma_base_file, lemma_seen_file_elsewhere, seen_file, seen_text};
use crate::sync::{overlay_of, SharedOverlaySync};
use crate::world::{SharedWorld, WorldView};
use vstd::prelude::*;

verus! {

/// The overlay was made for the same workspaces and the same open files, of which there are some.
pub open spec fn can_update(w: WorldView, session: u64, indexes: Seq<usize>, files: Seq<OpenFileView>) -> bool {
    match overlay_of(w, session) {
        None => false,
        Some(overlay) => {
            &&& overlay.workspaces == indexes
            &&& overlay.open_files.dom().len() == files.len()
            &&& overlay.open_files.dom().len() != 0
            &&& all_open(overlay, files)
        },
    }
}

pub open spec fn all_open(overlay: OverlayView, files: Seq<OpenFileView>) -> bool {
    forall|i: int| 0 <= i < files.len() ==> overlay.open_files.contains_key((#[trigger] files[i]).path.key)
}

/// The overlay with a new text and new line endings for one file.
pub open spec fn with_text_of(overlay: OverlayView, file: OpenFileView) -> OverlayView {
    let key = file.path.key;
    OverlayView {
        open_files: overlay.open_files.insert(key, file.text),
        files: overlay.files.insert(
            key,
            OverlayFileView { text: file.text, line_endings: file.line_endings, ..overlay.files[key] },
        ),
        ..overlay
    }
}

/// The overlay with the texts of the first `n` files.
pub open spec fn updated_to(overlay: OverlayView, files: Seq<OpenFileView>, n: int) -> OverlayView
    decreases n,
{
    if n <= 0 {
        overlay
    } else {
        with_text_of(updated_to(overlay, files, n - 1), files[n - 1])
    }
}

/// The texts that differ, among the first `n` files.
pub open spec fn new_texts_to(overlay: OverlayView, files: Seq<OpenFileView>, n: int) -> Seq<(u32, Option<Seq<char>>)>
    decreases n,
{
    if n <= 0 {
        Seq::empty()
    } else {
        let before = new_texts_to(overlay, files, n - 1);
        let entry = updated_to(overlay, files, n - 1).files[files[n - 1].path.key];
        if entry.text != files[n - 1].text {
            before.push((entry.overlay_file, Some(files[n - 1].text)))
        } else {
            before
        }
    }
}

/// Whether some of the first `n` files differs in text or line endings.
pub open spec fn differs_to(overlay: OverlayView, files: Seq<OpenFileView>, n: int) -> bool
    decreases n,
{
    if n <= 0 {
        false
    } else {
        let entry = updated_to(overlay, files, n - 1).files[files[n - 1].path.key];
        differs_to(overlay, files, n - 1) || entry.text != files[n - 1].text || entry.line_endings != files[n - 1].line_endings
    }
}

/// The world with the texts of the first `n` files in the session's overlay.
pub open spec fn updated_world_to(w: WorldView, session: u64, files: Seq<OpenFileView>, n: int) -> WorldView {
    WorldView {
        base: BaseView { inputs: w.base.inputs.with_texts(new_texts_to(w.overlays[session], files, n)), ..w.base },
        overlays: w.overlays.insert(session, updated_to(w.overlays[session], files, n)),
        ..w
    }
}

/// The world with the texts of the files in the session's overlay.
pub open spec fn updated_world(w: WorldView, session: u64, files: Seq<OpenFileView>) -> WorldView {
    updated_world_to(w, session, files, files.len() as int)
}

proof fn lemma_updated_to(overlay: OverlayView, files: Seq<OpenFileView>, n: int)
    requires
        overlay.wf(),
        all_open(overlay, files),
        0 <= n <= files.len(),
    ensures
        updated_to(overlay, files, n).wf(),
        updated_to(overlay, files, n).files.dom() == overlay.files.dom(),
        updated_to(overlay, files, n).open_files.dom() == overlay.open_files.dom(),
        updated_to(overlay, files, n).path_by_file == overlay.path_by_file,
        updated_to(overlay, files, n).crates == overlay.crates,
        forall|k: Seq<char>|
            #[trigger] overlay.files.contains_key(k) ==> updated_to(overlay, files, n).files[k].overlay_file
                == overlay.files[k].overlay_file && updated_to(overlay, files, n).files[k].base_source_root
                == overlay.files[k].base_source_root,
    decreases n,
{
    if n > 0 {
        lemma_updated_to(overlay, files, n - 1);
        let before = updated_to(overlay, files, n - 1);
        let r = updated_to(overlay, files, n);
        let key = files[n - 1].path.key;
        assert(overlay.open_files.dom().contains(key));
        assert(before.open_files.contains_key(key));
        assert(before.files.contains_key(key));
        assert(r.files.dom() =~= overlay.files.dom());
        assert(r.open_files.dom() =~= overlay.open_files.dom());
    }
}

proof fn lemma_updated_world(w: WorldView, session: u64, files: Seq<OpenFileView>, next: u32, n: int)
    requires
        w.wf(next),
        w.overlays.contains_key(session),
        all_open(w.overlays[session], files),
        0 <= n <= files.len(),
    ensures
        updated_world_to(w, session, files, n).wf(next),
    decreases n,
{
    let overlay = w.overlays[session];
    let r = updated_world_to(w, session, files, n);
    if n <= 0 {
        assert(w.overlays.insert(session, overlay) =~= w.overlays);
        assert(r =~= w);
    } else {
        lemma_updated_world(w, session, files, next, n - 1);
        lemma_updated_to(overlay, files, n - 1);
        lemma_updated_to(overlay, files, n);
        let before = updated_world_to(w, session, files, n - 1);
        let old = updated_to(overlay, files, n - 1);
        let new = updated_to(overlay, files, n);
        let file = files[n - 1];
        let key = file.path.key;
        let number = old.files[key].overlay_file;
        assert(overlay.open_files.contains_key(key));
        assert(old.open_files.dom().contains(key));
        assert(old.files.contains_key(key));
        assert(before.overlays[session] == old && r.overlays[session] == new);
        assert(before.overlays[session].path_by_file.contains_key(number));
        assert(before.applied.contains(number));
        if old.files[key].text != file.text {
            let texts = new_texts_to(overlay, files, n);
            assert(texts.drop_last() =~= new_texts_to(overlay, files, n - 1));
            assert(r.base.inputs == before.base.inputs.with_text(number, Some(file.text)));
        } else {
            assert(r.base.inputs == before.base.inputs);
        }
        assert forall|s: u64| #[trigger] r.overlays.contains_key(s) <==> before.overlays.contains_key(s) by {}
        assert(r.overlays.dom() =~= before.overlays.dom());
        assert forall|s: u64, f: u32| r.overlays.contains_key(s) implies #[trigger] r.overlays[s].path_by_file.contains_key(f)
            == before.overlays[s].path_by_file.contains_key(f) by {}
        assert(crate::world::overlays_sound(r.overlays, next)) by {
            assert forall|s: u64| #[trigger] r.overlays.contains_key(s) implies {
                &&& r.overlays[s].wf()
                &&& crate::overlay_build::numbers_below(r.overlays[s], next)
                &&& r.overlays[s].files.dom().finite()
                &&& r.overlays[s].path_by_file.dom().finite()
            } by {
                assert(before.overlays.contains_key(s));
            }
            assert forall|s: u64, t: u64, f: u32|
                s != t && r.overlays.contains_key(s) && r.overlays.contains_key(t) && #[trigger] r.overlays[s].path_by_file.contains_key(
                    f,
                ) implies !#[trigger] r.overlays[t].path_by_file.contains_key(f) by {
                assert(before.overlays[s].path_by_file.contains_key(f));
                assert(!before.overlays[t].path_by_file.contains_key(f));
            }
        }
        assert(crate::world::overlay_roots_known(r.overlays, r.base.inputs.roots.len())) by {
            assert forall|s: u64, k: Seq<char>|
                r.overlays.contains_key(s) && #[trigger] r.overlays[s].files.contains_key(k) implies r.overlays[s].files[k].base_source_root
                < r.base.inputs.roots.len() by {
                assert(before.overlays[s].files.contains_key(k));
            }
        }
        assert(crate::world::applied_sound(r, next)) by {
            assert forall|s: u64, f: u32|
                r.overlays.contains_key(s) && #[trigger] r.overlays[s].path_by_file.contains_key(f) && r.applied.contains(f) implies r.base.inputs.texts[f]
                == r.overlays[s].files[r.overlays[s].path_by_file[f]].text by {
                assert(before.overlays[s].path_by_file.contains_key(f) && before.applied.contains(f));
                if s == session {
                    if f == number {
                        assert(old.path_by_file[f] == key);
                    } else {
                        assert(old.files.contains_key(old.path_by_file[f]));
                        assert(old.path_by_file[f] != key);
                    }
                } else if f == number {
                    assert(before.overlays[session].path_by_file.contains_key(f));
                    assert(!before.overlays[s].path_by_file.contains_key(f));
                }
            }
        }
        assert(crate::world::disk_numbers_apart(r, next)) by {
            assert forall|i: int, f: u32, s: u64|
                0 <= i < r.base.workspaces.len() && #[trigger] r.base.workspaces[i].files.contains_file(f) && r.overlays.contains_key(
                    s,
                ) implies !#[trigger] r.overlays[s].path_by_file.contains_key(f) by {
                assert(before.base.workspaces[i].files.contains_file(f));
                assert(!before.overlays[s].path_by_file.contains_key(f));
            }
        }
        assert(crate::world::all_applied(r)) by {
            assert forall|s: u64, f: u32|
                r.overlays.contains_key(s) && #[trigger] r.overlays[s].path_by_file.contains_key(f) implies r.applied.contains(f) by {
                assert(before.overlays[s].path_by_file.contains_key(f));
            }
        }
        assert(r.base.readable()) by {
            assert(r.base.inputs.roots == before.base.inputs.roots);
            assert(r.base.inputs.file_roots == before.base.inputs.file_roots);
            assert forall|f: u32| before.base.inputs.texts.contains_key(f) implies #[trigger] r.base.inputs.texts.contains_key(f) by {}
            assert forall|i: int, f: u32|
                0 <= i < r.base.inputs.roots.len() && #[trigger] r.base.inputs.roots[i].files.contains_key(f) implies r.base.inputs.texts.contains_key(f) by {
                assert(before.base.inputs.roots[i].files.contains_key(f));
            }
            assert(r.base.inputs.readable());
            assert(r.base.crates == before.base.crates);
            assert(before.base.readable());
            assert forall|c: int| 0 <= c < r.base.crates.len() implies r.base.inputs.file_roots.contains_key(
                (#[trigger] r.base.crates[c]).root_file,
            ) by {
                assert(before.base.inputs.file_roots.contains_key(before.base.crates[c].root_file));
            }
            assert forall|c: int, d: int|
                0 <= c < r.base.crates.len() && 0 <= d < r.base.crates[c].transitive_rev_deps.len() implies r.base.inputs.file_roots.contains_key(
                #[trigger] r.base.crates[c].transitive_rev_deps[d],
            ) by {
                assert(before.base.inputs.file_roots.contains_key(before.base.crates[c].transitive_rev_deps[d]));
            }
            assert forall|k: int, f: u32|
                0 <= k < r.base.workspaces.len() && #[trigger] r.base.workspaces[k].files.file_exists(f) implies r.base.inputs.file_roots.contains_key(f)
                && r.base.inputs.texts.contains_key(f) by {
                assert(before.base.workspaces[k].files.file_exists(f));
            }
        }
    }
}

fn same_indexes(a: &Vec<usize>, b: &Vec<usize>) -> (r: bool)
    ensures
        r == (a@ == b@),
{
    if a.len() != b.len() {
        return false;
    }
    let mut i: usize = 0;
    while i < a.len()
        invariant
            i <= a.len(),
            a.len() == b.len(),
            forall|j: int| 0 <= j < i ==> a@[j] == b@[j],
        decreases a.len() - i,
    {
        if a[i] != b[i] {
            return false;
        }
        i = i + 1;
    }
    proof {
        assert(a@ =~= b@);
    }
    true
}

/// Puts the texts into the overlay, and lists those that differ.
fn update_texts(overlay: &mut ActiveSessionOverlay, files: &Vec<OpenFile>) -> (r: (bool, Vec<(u32, Option<String>)>))
    requires
        old(overlay)@.wf(),
        all_open(old(overlay)@, open_views(files@)),
    ensures
        final(overlay)@ == updated_to(old(overlay)@, open_views(files@), files@.len() as int),
        r.0 == differs_to(old(overlay)@, open_views(files@), files@.len() as int),
        r.1.deep_view() == new_texts_to(old(overlay)@, open_views(files@), files@.len() as int),
{
    let ghost start = overlay@;
    let ghost views = open_views(files@);
    let mut changed = false;
    let mut texts: Vec<(u32, Option<String>)> = Vec::new();
    let mut i: usize = 0;
    proof {
        assert(texts.deep_view() =~= Seq::empty());
    }
    while i < files.len()
        invariant
            i <= files.len(),
            views == open_views(files@),
            start.wf(),
            all_open(start, views),
            overlay@ == updated_to(start, views, i as int),
            changed == differs_to(start, views, i as int),
            texts.deep_view() == new_texts_to(start, views, i as int),
        decreases files.len() - i,
    {
        let open = &files[i];
        let key = &open.path.key;
        let ghost before = overlay@;
        proof {
            lemma_updated_to(start, views, i as int);
            assert(views[i as int] == open@);
            assert(start.open_files.dom().contains(key@));
            assert(before.open_files.contains_key(key@));
            assert(before.files.contains_key(key@));
            assert(overlay.files_by_path@.contains_key(key@));
        }
        match overlay.files_by_path.remove(key) {
            Some(file) => {
                let mut file = file;
                if !(file.text == open.text) {
                    let ghost listed_before = texts.deep_view();
                    overlay.open_files.insert(key.clone(), open.text.clone());
                    file.text = open.text.clone();
                    texts.push((file.overlay_file, Some(open.text.clone())));
                    changed = true;
                    proof {
                        assert(texts.deep_view() =~= listed_before.push((file.overlay_file, Some(open.text@))));
                    }
                }
                if file.line_endings != open.line_endings {
                    file.line_endings = open.line_endings;
                    changed = true;
                }
                overlay.files_by_path.insert(key.clone(), file);
            },
            None => {},
        }
        proof {
            let want = with_text_of(before, open@);
            assert(overlay@.files =~= want.files);
            assert(overlay@.open_files =~= want.open_files);
            assert(overlay@ =~= want);
        }
        i = i + 1;
    }
    (changed, texts)
}

impl SharedWorld {
    /// Whether the session's overlay can take the texts of the files as it is.
    pub fn can_update_session_overlay(&self, session_id: u64, workspaces: &Vec<usize>, files: &Vec<OpenFile>) -> (r: bool)
        ensures
            r == can_update(self@, session_id, workspaces@, open_views(files@)),
    {
        let ghost views = open_views(files@);
        let overlay = match self.overlays.get(&session_id) {
            Some(overlay) => overlay,
            None => {
                return false;
            },
        };
        let n = overlay.open_files.len();
        proof {
            assert(overlay_of(self@, session_id) == Some(overlay@));
            overlay.open_files.lemma_len();
            assert(overlay@.open_files.dom() =~= overlay.open_files@.dom());
        }
        if !same_indexes(&overlay.workspaces, workspaces) || n != files.len() || n == 0 {
            return false;
        }
        let mut i: usize = 0;
        while i < files.len()
            invariant
                i <= files.len(),
                views == open_views(files@),
                overlay_of(self@, session_id) == Some(overlay@),
                overlay@.workspaces == workspaces@,
                overlay@.open_files.dom().len() == files.len(),
                forall|j: int| 0 <= j < i ==> overlay@.open_files.contains_key((#[trigger] views[j]).path.key),
            decreases files.len() - i,
        {
            proof {
                assert(views[i as int] == files@[i as int]@);
            }
            if !overlay.open_files.contains_key(&files[i].path.key) {
                return false;
            }
            i = i + 1;
        }
        true
    }

    /// Puts the texts of the open files into the session's overlay. The second result lists the
    /// texts that the database is to be told.
    pub fn update_session_overlay(&mut self, session_id: u64, files: &Vec<OpenFile>) -> (r: (
        SharedOverlaySync,
        Vec<(u32, Option<String>)>,
    ))
        requires
            old(self)@.overlays.contains_key(session_id),
            old(self)@.overlays[session_id].wf(),
            all_open(old(self)@.overlays[session_id], open_views(files@)),
        ensures
            final(self)@ == updated_world(old(self)@, session_id, open_views(files@)),
            forall|next: u32| old(self)@.wf(next) ==> #[trigger] final(self)@.wf(next),
            r.0.changed == differs_to(old(self)@.overlays[session_id], open_views(files@), files@.len() as int),
            r.0.removed_files@.len() == 0,
            r.0.change is None,
            r.1.deep_view() == new_texts_to(old(self)@.overlays[session_id], open_views(files@), files@.len() as int),
    {
        let ghost w = self@;
        let ghost views = open_views(files@);
        proof {
            assert(self.overlays@.contains_key(session_id));
        }
        let mut changed = false;
        let mut texts: Vec<(u32, Option<String>)> = Vec::new();
        match self.overlays.remove(&session_id) {
            Some(overlay) => {
                let mut overlay = overlay;
                proof {
                    assert(overlay@ == w.overlays[session_id]);
                }
                let (differs, list) = update_texts(&mut overlay, files);
                self.overlays.insert(session_id, overlay);
                self.base.inputs.set_texts(&list);
                changed = differs;
                texts = list;
            },
            None => {},
        }
        proof {
            assert(self@.overlays =~= updated_world(w, session_id, views).overlays);
            assert(self@ =~= updated_world(w, session_id, views));
            assert forall|next: u32| w.wf(next) implies #[trigger] self@.wf(next) by {
                lemma_updated_world(w, session_id, views, next, views.len() as int);
            }
        }
        (SharedOverlaySync { changed, removed_files: Vec::new(), change: None }, texts)
    }
}

proof fn lemma_new_texts(overlay: OverlayView, files: Seq<OpenFileView>, n: int)
    requires
        overlay.wf(),
        all_open(overlay, files),
        0 <= n <= files.len(),
    ensures
        forall|i: int|
            0 <= i < new_texts_to(overlay, files, n).len() ==> overlay.path_by_file.contains_key(
                (#[trigger] new_texts_to(overlay, files, n)[i]).0,
            ),
    decreases n,
{
    if n > 0 {
        lemma_new_texts(overlay, files, n - 1);
        lemma_updated_to(overlay, files, n - 1);
        let before = new_texts_to(overlay, files, n - 1);
        let r = new_texts_to(overlay, files, n);
        let old = updated_to(overlay, files, n - 1);
        let key = files[n - 1].path.key;
        assert(overlay.open_files.contains_key(key));
        assert(overlay.files.contains_key(key));
        assert(old.files.dom().contains(key));
        assert forall|i: int| 0 <= i < r.len() implies overlay.path_by_file.contains_key((#[trigger] r[i]).0) by {
            if i < before.len() {
                assert(r[i] == before[i]);
            }
        }
    }
}

/// What a session types is its own: putting new texts into its overlay changes nothing of what any
/// other session finds under any path.
pub proof fn law_typing_is_private(
    w: WorldView,
    session: u64,
    files: Seq<OpenFileView>,
    next: u32,
    other: u64,
    indexes: Seq<usize>,
    key: Seq<char>,
)
    requires
        w.wf(next),
        w.overlays.contains_key(session),
        all_open(w.overlays[session], files),
        other != session,
    ensures
        seen_text(updated_world(w, session, files), other, indexes, key) == seen_text(w, other, indexes, key),
{
    let r = updated_world(w, session, files);
    let overlay = w.overlays[session];
    let texts = new_texts_to(overlay, files, files.len() as int);
    lemma_new_texts(overlay, files, files.len() as int);
    assert(overlay_of(r, other) == overlay_of(w, other));
    match seen_file(w, other, indexes, key) {
        Some(f) => {
            lemma_seen_file_elsewhere(w, next, other, indexes, key);
            assert(!overlay.path_by_file.contains_key(f));
            lemma_with_texts(w.base.inputs, texts, f, None);
        },
        None => {},
    }
}

proof fn lemma_last_text(overlay: OverlayView, files: Seq<OpenFileView>, n: int, at: int)
    requires
        0 <= at < n <= files.len(),
        forall|j: int| at < j < n ==> (#[trigger] files[j]).path.key != files[at].path.key,
    ensures
        updated_to(overlay, files, n).files.contains_key(files[at].path.key),
        updated_to(overlay, files, n).files[files[at].path.key].text == files[at].text,
        updated_to(overlay, files, n).files[files[at].path.key].line_endings == files[at].line_endings,
    decreases n,
{
    if at < n - 1 {
        lemma_last_text(overlay, files, n - 1, at);
        assert(files[n - 1].path.key != files[at].path.key);
    }
}

/// A session sees what it types: once its texts are in its overlay, each file shows the last text
/// given for it.
pub proof fn law_typing_is_seen(
    w: WorldView,
    session: u64,
    files: Seq<OpenFileView>,
    next: u32,
    indexes: Seq<usize>,
    at: int,
)
    requires
        w.wf(next),
        w.overlays.contains_key(session),
        all_open(w.overlays[session], files),
        0 <= at < files.len(),
        forall|j: int| at < j < files.len() ==> (#[trigger] files[j]).path.key != files[at].path.key,
    ensures
        seen_text(updated_world(w, session, files), session, indexes, files[at].path.key) == Some(files[at].text),
{
    let n = files.len() as int;
    let r = updated_world(w, session, files);
    let key = files[at].path.key;
    lemma_updated_world(w, session, files, next, n);
    lemma_last_text(w.overlays[session], files, n, at);
    let overlay = r.overlays[session];
    assert(r.overlays.contains_key(session));
    assert(overlay.files.contains_key(key));
    let f = overlay.files[key].overlay_file;
    assert(r.overlays[session].path_by_file.contains_key(f) && r.applied.contains(f));
}

proof fn lemma_others_kept(overlay: OverlayView, files: Seq<OpenFileView>, n: int, key: Seq<char>)
    requires
        0 <= n <= files.len(),
        forall|j: int| 0 <= j < files.len() ==> (#[trigger] files[j]).path.key != key,
    ensures
        updated_to(overlay, files, n).files.contains_key(key) == overlay.files.contains_key(key),
        updated_to(overlay, files, n).files[key] == overlay.files[key],
    decreases n,
{
    if n > 0 {
        lemma_others_kept(overlay, files, n - 1, key);
        assert(files[n - 1].path.key != key);
    }
}

/// What a session types leaves the disk: the files on disk keep their texts.
pub proof fn law_typing_leaves_the_disk(
    w: WorldView,
    session: u64,
    files: Seq<OpenFileView>,
    next: u32,
    indexes: Seq<usize>,
    key: Seq<char>,
)
    requires
        w.wf(next),
        w.overlays.contains_key(session),
        all_open(w.overlays[session], files),
    ensures
        base_file(w.base.workspaces, indexes, key) matches Some(f) ==> updated_world(w, session, files).base.inputs.texts[f]
            == w.base.inputs.texts[f],
{
    let n = files.len() as int;
    let overlay = w.overlays[session];
    lemma_new_texts(overlay, files, n);
    match base_file(w.base.workspaces, indexes, key) {
        Some(f) => {
            lemma_base_file(w, next, indexes, key);
            let i = choose|i: int| 0 <= i < w.base.workspaces.len() && #[trigger] w.base.workspaces[i].files.contains_file(f);
            assert(!overlay.path_by_file.contains_key(f)) by {
                assert(w.base.workspaces[i].files.contains_file(f));
                assert(!w.overlays[session].path_by_file.contains_key(f));
            }
            lemma_with_texts(w.base.inputs, new_texts_to(overlay, files, n), f, None);
        },
        None => {},
    }
}

/// What a session types is in the files that it types in: under every other path it finds what it
/// found before.
pub proof fn law_typing_leaves_other_files(
    w: WorldView,
    session: u64,
    files: Seq<OpenFileView>,
    next: u32,
    indexes: Seq<usize>,
    key: Seq<char>,
)
    requires
        w.wf(next),
        w.overlays.contains_key(session),
        all_open(w.overlays[session], files),
        forall|j: int| 0 <= j < files.len() ==> (#[trigger] files[j]).path.key != key,
    ensures
        seen_text(updated_world(w, session, files), session, indexes, key) == seen_text(w, session, indexes, key),
{
    let n = files.len() as int;
    let r = updated_world(w, session, files);
    let overlay = w.overlays[session];
    lemma_updated_world(w, session, files, next, n);
    lemma_updated_to(overlay, files, n);
    lemma_others_kept(overlay, files, n, key);
    assert(r.overlays.contains_key(session) && r.overlays[session] == updated_to(overlay, files, n));
    law_typing_leaves_the_disk(w, session, files, next, indexes, key);
    if overlay.files.contains_key(key) {
        let number = overlay.files[key].overlay_file;
        assert(w.overlays[session].path_by_file.contains_key(number) && w.applied.contains(number));
        assert(r.overlays[session].path_by_file.contains_key(number) && r.applied.contains(number));
    }
}

} // verus!
